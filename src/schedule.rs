use crate::common_types::{Cargo, NonNegativeTimeDelta, Terminal, Time, Truck};
use crate::counter_mapper::CounterMapper;
use crate::driving_times_cache::DrivingTimesCache;
use crate::intervals::{intersect_all, Interval, IntervalChain, IntervalWithDataChain};
use crate::random::{choose_in_range, random_index, seeded_rng};
use rand_xoshiro::Xoshiro256PlusPlus;
use vstd::pervasive::unreached;
use vstd::prelude::*;

verus! {

/// A truck as the caller describes it.
#[derive(Debug)]
pub struct PyTruckData {
    pub starting_terminal: String,
    pub max_weight_kg: usize,
    pub max_teu: usize,
}

impl PyTruckData {
    pub fn new(starting_terminal: String, max_weight_kg: usize, max_teu: usize) -> (r: Self)
        ensures
            r.starting_terminal == starting_terminal,
            r.max_weight_kg == max_weight_kg,
            r.max_teu == max_teu,
    {
        PyTruckData { starting_terminal, max_weight_kg, max_teu }
    }
}

/// A request to deliver one cargo, as the caller describes it.
#[derive(Debug)]
pub struct PyBooking {
    pub cargo: String,
    pub cargo_weight_kg: usize,
    pub cargo_teu: usize,
    pub from_terminal: String,
    pub to_terminal: String,
    pub pickup_open_time: Time,
    pub pickup_close_time: Time,
    pub dropoff_open_time: Time,
    pub dropoff_close_time: Time,
}

impl PyBooking {
    pub fn new(
        cargo: String,
        cargo_weight_kg: usize,
        cargo_teu: usize,
        from_terminal: String,
        to_terminal: String,
        pickup_open_time: Time,
        pickup_close_time: Time,
        dropoff_open_time: Time,
        dropoff_close_time: Time,
    ) -> (r: Self)
        ensures
            r.cargo == cargo,
            r.cargo_weight_kg == cargo_weight_kg,
            r.cargo_teu == cargo_teu,
            r.from_terminal == from_terminal,
            r.to_terminal == to_terminal,
            r.pickup_open_time == pickup_open_time,
            r.pickup_close_time == pickup_close_time,
            r.dropoff_open_time == dropoff_open_time,
            r.dropoff_close_time == dropoff_close_time,
    {
        PyBooking {
            cargo,
            cargo_weight_kg,
            cargo_teu,
            from_terminal,
            to_terminal,
            pickup_open_time,
            pickup_close_time,
            dropoff_open_time,
            dropoff_close_time,
        }
    }
}

/// Where and when a truck starts, and what it can carry.
#[derive(Clone, Copy, Debug, PartialEq, Eq, Structural)]
pub struct TruckData {
    pub starting_terminal: Terminal,
    pub start_time: Time,
    pub max_weight_kg: usize,
    pub max_teu: usize,
}

/// What delivering one cargo takes.
#[derive(Clone, Copy, Debug, PartialEq, Eq, Structural)]
pub struct BookingInformation {
    /// Terminal where the cargo is picked up
    pub from: Terminal,
    /// Terminal where the cargo is dropped off
    pub to: Terminal,
    pub weight_kg: usize,
    pub teu: usize,
}

/// A planned stop of a truck.
#[derive(Debug)]
pub struct Checkpoint {
    pub time: Time,
    pub terminal: Terminal,
    pub pickup_cargo: Vec<Cargo>,
    pub dropoff_cargo: Vec<Cargo>,
    /// Capacity left after the pickups and dropoffs of this stop.
    pub available_teu: usize,
    pub available_weight_kg: usize,
}

/// Why a schedule generator could not be built: an interval
/// `[start_time, end_time)` of the input is empty.
#[derive(Debug, PartialEq, Eq, Structural)]
pub enum ScheduleError {
    /// The planning period.
    InvalidPlanningPeriod { start_time: Time, end_time: Time },
    /// The opening hours of entry `terminal` of the terminal data.
    InvalidTerminalHours { terminal: usize, start_time: Time, end_time: Time },
    /// The pickup window of entry `booking` of the booking data.
    InvalidPickupWindow { booking: usize, start_time: Time, end_time: Time },
    /// The dropoff window of entry `booking` of the booking data.
    InvalidDropoffWindow { booking: usize, start_time: Time, end_time: Time },
}

/// The integer quantities that the scores of a schedule are made of.
#[derive(Debug, PartialEq, Eq, Structural)]
pub struct ScoreParts {
    pub num_deliveries: usize,
    pub num_cargo: usize,
    pub num_free_trucks: usize,
    pub num_trucks: usize,
    /// Sum of the direct driving times of the delivered cargo.
    pub min_driving_time: u128,
    /// Sum of the trucks' driving times, at least 1.
    pub total_driving_time: u128,
}

fn copy_cargo(v: &Vec<Cargo>) -> (r: Vec<Cargo>)
    ensures
        r@ == v@,
{
    let mut r: Vec<Cargo> = Vec::new();
    let mut i: usize = 0;
    while i < v.len()
        invariant
            i <= v@.len(),
            r@ == v@.take(i as int),
        decreases v@.len() - i,
    {
        r.push(v[i]);
        i = i + 1;
        proof {
            assert(v@.take(i as int) == v@.take(i - 1).push(v@[i - 1]));
        }
    }
    proof {
        assert(v@.take(v@.len() as int) == v@);
    }
    r
}

impl Checkpoint {
    pub fn duplicate(&self) -> (r: Checkpoint)
        ensures
            r.time == self.time,
            r.terminal == self.terminal,
            r.pickup_cargo@ == self.pickup_cargo@,
            r.dropoff_cargo@ == self.dropoff_cargo@,
            r.available_teu == self.available_teu,
            r.available_weight_kg == self.available_weight_kg,
    {
        Checkpoint {
            time: self.time,
            terminal: self.terminal,
            pickup_cargo: copy_cargo(&self.pickup_cargo),
            dropoff_cargo: copy_cargo(&self.dropoff_cargo),
            available_teu: self.available_teu,
            available_weight_kg: self.available_weight_kg,
        }
    }
}

/// The value of a checkpoint: everything in it, with the cargo lists as sequences.
pub struct CheckpointModel {
    pub time: Time,
    pub terminal: Terminal,
    pub pickup_cargo: Seq<Cargo>,
    pub dropoff_cargo: Seq<Cargo>,
    pub available_teu: usize,
    pub available_weight_kg: usize,
}

impl View for Checkpoint {
    type V = CheckpointModel;

    open spec fn view(&self) -> CheckpointModel {
        CheckpointModel {
            time: self.time,
            terminal: self.terminal,
            pickup_cargo: self.pickup_cargo@,
            dropoff_cargo: self.dropoff_cargo@,
            available_teu: self.available_teu,
            available_weight_kg: self.available_weight_kg,
        }
    }
}

pub open spec fn cps_view(v: Seq<Checkpoint>) -> Seq<CheckpointModel> {
    v.map_values(|c: Checkpoint| c@)
}

fn copy_checkpoints(v: &Vec<Checkpoint>) -> (r: Vec<Checkpoint>)
    ensures
        cps_view(r@) == cps_view(v@),
{
    let mut r: Vec<Checkpoint> = Vec::new();
    let mut i: usize = 0;
    while i < v.len()
        invariant
            i <= v@.len(),
            r@.len() == i,
            forall|k: int| 0 <= k < i ==> (#[trigger] r@[k])@ == v@[k]@,
        decreases v@.len() - i,
    {
        r.push(v[i].duplicate());
        i = i + 1;
    }
    proof {
        assert(cps_view(r@) =~= cps_view(v@));
    }
    r
}

/// A candidate plan: the checkpoints of each truck, the truck that each
/// scheduled cargo travels on, and each truck's total driving time.
#[derive(Debug)]
pub struct Schedule {
    truck_checkpoints: Vec<Vec<Checkpoint>>,
    scheduled_cargo_truck: Vec<Option<Truck>>,
    truck_driving_times: Vec<NonNegativeTimeDelta>,
}

/// The value of a schedule.
pub struct ScheduleModel {
    pub checkpoints: Seq<Seq<CheckpointModel>>,
    pub cargo_truck: Seq<Option<Truck>>,
    pub driving_times: Seq<NonNegativeTimeDelta>,
}

impl View for Schedule {
    type V = ScheduleModel;

    closed spec fn view(&self) -> ScheduleModel {
        ScheduleModel {
            checkpoints: self.truck_checkpoints@.map_values(|v: Vec<Checkpoint>| cps_view(v@)),
            cargo_truck: self.scheduled_cargo_truck@,
            driving_times: self.truck_driving_times@,
        }
    }
}

impl Schedule {
    proof fn lemma_view(&self)
        ensures
            self@.checkpoints.len() == self.truck_checkpoints@.len(),
            forall|t: int| 0 <= t < self.truck_checkpoints@.len() ==> #[trigger] self@.checkpoints[t] == cps_view(
                self.truck_checkpoints@[t]@),
            self@.cargo_truck == self.scheduled_cargo_truck@,
            self@.driving_times == self.truck_driving_times@,
    {
    }

    /// A copy of the schedule.
    pub fn duplicate(&self) -> (r: Schedule)
        ensures
            r@ == self@,
    {
        let mut cps: Vec<Vec<Checkpoint>> = Vec::new();
        let mut t: usize = 0;
        while t < self.truck_checkpoints.len()
            invariant
                t <= self.truck_checkpoints@.len(),
                cps@.len() == t,
                forall|k: int| 0 <= k < t ==> cps_view((#[trigger] cps@[k])@) == cps_view(self.truck_checkpoints@[k]@),
            decreases self.truck_checkpoints@.len() - t,
        {
            cps.push(copy_checkpoints(&self.truck_checkpoints[t]));
            t = t + 1;
        }
        let mut assigned: Vec<Option<Truck>> = Vec::new();
        let mut c: usize = 0;
        while c < self.scheduled_cargo_truck.len()
            invariant
                c <= self.scheduled_cargo_truck@.len(),
                assigned@ == self.scheduled_cargo_truck@.take(c as int),
            decreases self.scheduled_cargo_truck@.len() - c,
        {
            assigned.push(self.scheduled_cargo_truck[c]);
            c = c + 1;
            proof {
                assert(self.scheduled_cargo_truck@.take(c as int) == self.scheduled_cargo_truck@.take(c - 1).push(
                    self.scheduled_cargo_truck@[c - 1]));
            }
        }
        let mut times: Vec<NonNegativeTimeDelta> = Vec::new();
        let mut k: usize = 0;
        while k < self.truck_driving_times.len()
            invariant
                k <= self.truck_driving_times@.len(),
                times@ == self.truck_driving_times@.take(k as int),
            decreases self.truck_driving_times@.len() - k,
        {
            times.push(self.truck_driving_times[k]);
            k = k + 1;
            proof {
                assert(self.truck_driving_times@.take(k as int) == self.truck_driving_times@.take(k - 1).push(
                    self.truck_driving_times@[k - 1]));
            }
        }
        let r = Schedule { truck_checkpoints: cps, scheduled_cargo_truck: assigned, truck_driving_times: times };
        proof {
            assert(self.scheduled_cargo_truck@.take(self.scheduled_cargo_truck@.len() as int)
                == self.scheduled_cargo_truck@);
            assert(self.truck_driving_times@.take(self.truck_driving_times@.len() as int)
                == self.truck_driving_times@);
            assert(r@.checkpoints =~= self@.checkpoints);
        }
        r
    }

    /// The checkpoints of each truck, in order of time.
    pub fn get_truck_checkpoints(&self) -> (r: &Vec<Vec<Checkpoint>>)
        ensures
            r@.map_values(|v: Vec<Checkpoint>| cps_view(v@)) == self@.checkpoints,
    {
        &self.truck_checkpoints
    }

    /// The truck that each cargo travels on, if it is scheduled.
    pub fn get_scheduled_cargo_truck(&self) -> (r: &Vec<Option<Truck>>)
        ensures
            r@ == self@.cargo_truck,
    {
        &self.scheduled_cargo_truck
    }

    /// The total driving time of each truck.
    pub fn get_truck_driving_times(&self) -> (r: &Vec<NonNegativeTimeDelta>)
        ensures
            r@ == self@.driving_times,
    {
        &self.truck_driving_times
    }
}

/// The terminal before checkpoint `k`: the previous checkpoint's, or the truck's start.
pub open spec fn prev_terminal(start: Terminal, cps: Seq<CheckpointModel>, k: int) -> Terminal {
    if k == 0 {
        start
    } else {
        cps[k - 1].terminal
    }
}

/// The fixed inputs of a planning run: trucks, bookings with their effective
/// windows, used terminals, the planning period and the driving times.
pub struct ScheduleProblem {
    driving_times_cache: DrivingTimesCache,
    /// Effective pickup windows, by cargo.
    pickup_times: Vec<IntervalChain>,
    /// Effective dropoff windows, by cargo.
    dropoff_times: Vec<IntervalChain>,
    cargo_booking_info: Vec<BookingInformation>,
    /// Whether each terminal is used by a truck or a kept booking.
    terminal_active: Vec<bool>,
    truck_data: Vec<TruckData>,
    /// Time in which trucks may be scheduled
    planning_period: Interval,
    terminal_mapper: CounterMapper,
    cargo_mapper: CounterMapper,
    truck_mapper: CounterMapper,
}

impl ScheduleProblem {
    pub closed spec fn trucks(&self) -> Seq<TruckData> {
        self.truck_data@
    }

    pub closed spec fn bookings(&self) -> Seq<BookingInformation> {
        self.cargo_booking_info@
    }

    pub closed spec fn pickup_windows(&self) -> Seq<IntervalChain> {
        self.pickup_times@
    }

    pub closed spec fn dropoff_windows(&self) -> Seq<IntervalChain> {
        self.dropoff_times@
    }

    pub closed spec fn active(&self) -> Seq<bool> {
        self.terminal_active@
    }

    pub closed spec fn period(&self) -> Interval {
        self.planning_period
    }

    pub closed spec fn cache(&self) -> DrivingTimesCache {
        self.driving_times_cache
    }

    pub closed spec fn terminal_ids(&self) -> Seq<Seq<char>> {
        self.terminal_mapper@
    }

    pub closed spec fn cargo_ids(&self) -> Seq<Seq<char>> {
        self.cargo_mapper@
    }

    pub closed spec fn truck_ids(&self) -> Seq<Seq<char>> {
        self.truck_mapper@
    }

    pub open spec fn is_terminal(&self, x: Terminal) -> bool {
        x.0 < self.active().len() && self.active()[x.0 as int]
    }

    pub open spec fn drive(&self, a: Terminal, b: Terminal) -> int {
        self.cache().drive(a.0 as int, b.0 as int) as int
    }

    /// Every pair of used terminals has a known driving time.
    pub open spec fn drive_complete(&self) -> bool {
        forall|a: Terminal, b: Terminal| #![trigger self.cache().known(a.0 as int, b.0 as int)]
            self.is_terminal(a) && self.is_terminal(b) ==> self.cache().known(a.0 as int, b.0 as int)
    }

    pub open spec fn wf(&self) -> bool {
        &&& self.trucks().len() == self.truck_ids().len()
        &&& self.bookings().len() == self.cargo_ids().len()
        &&& self.pickup_windows().len() == self.bookings().len()
        &&& self.dropoff_windows().len() == self.bookings().len()
        &&& self.active().len() == self.terminal_ids().len()
        &&& names_distinct(self.terminal_ids())
        &&& self.period().wf()
        &&& forall|t: int| 0 <= t < self.trucks().len() ==> self.is_terminal(
            (#[trigger] self.trucks()[t]).starting_terminal)
        &&& forall|c: int| 0 <= c < self.bookings().len() ==> self.is_terminal(
            (#[trigger] self.bookings()[c]).from) && self.is_terminal(self.bookings()[c].to)
        &&& forall|c: int| 0 <= c < self.bookings().len() ==> (#[trigger] self.pickup_windows()[c]).wf()
        &&& forall|c: int| 0 <= c < self.bookings().len() ==> (#[trigger] self.dropoff_windows()[c]).wf()
    }

    /// The time before checkpoint `k`: the previous checkpoint's, or the start of the planning period.
    pub open spec fn prev_time(&self, cps: Seq<CheckpointModel>, k: int) -> int {
        if k == 0 {
            self.period().start() as int
        } else {
            cps[k - 1].time as int
        }
    }

    /// Driving time along the first `n` legs, from `start` through the checkpoints.
    pub open spec fn legs(&self, start: Terminal, cps: Seq<CheckpointModel>, n: int) -> int
        decreases n,
    {
        if n <= 0 {
            0
        } else {
            self.legs(start, cps, n - 1) + self.drive(prev_terminal(start, cps, n - 1), cps[n - 1].terminal)
        }
    }

    /// Checkpoint `k` of a truck that starts as `td` says: a used terminal other
    /// than the one before, reachable in time from it, later than the one before,
    /// inside the planning period, and within the truck's capacity.
    pub open spec fn checkpoint_ok(&self, td: TruckData, cps: Seq<CheckpointModel>, k: int) -> bool {
        let start = td.starting_terminal;
        &&& self.is_terminal(cps[k].terminal)
        &&& cps[k].terminal != prev_terminal(start, cps, k)
        &&& self.prev_time(cps, k) + self.drive(prev_terminal(start, cps, k), cps[k].terminal) <= cps[k].time
        &&& (k > 0 ==> cps[k - 1].time < cps[k].time)
        &&& cps[k].time < self.period().end()
        &&& cps[k].available_teu <= td.max_teu
        &&& cps[k].available_weight_kg <= td.max_weight_kg
        &&& forall|m: int| 0 <= m < cps[k].pickup_cargo.len() ==> (#[trigger] cps[k].pickup_cargo[m]).0
            < self.bookings().len()
        &&& forall|m: int| 0 <= m < cps[k].dropoff_cargo.len() ==> (#[trigger] cps[k].dropoff_cargo[m]).0
            < self.bookings().len()
        &&& cps[k].pickup_cargo.no_duplicates()
        &&& cps[k].dropoff_cargo.no_duplicates()
    }

    pub open spec fn truck_wf(&self, t: int, cps: Seq<CheckpointModel>) -> bool {
        forall|k: int| 0 <= k < cps.len() ==> #[trigger] self.checkpoint_ok(self.trucks()[t], cps, k)
    }

    /// The invariants of a schedule of this generator: times strictly increase,
    /// consecutive terminals differ, every leg can be driven in the time between
    /// its ends, capacities stay within the truck's, and the cached driving times
    /// are the sums over each truck's legs.
    pub open spec fn schedule_wf(&self, s: ScheduleModel) -> bool {
        &&& s.checkpoints.len() == self.trucks().len()
        &&& s.driving_times.len() == self.trucks().len()
        &&& s.cargo_truck.len() == self.bookings().len()
        &&& forall|t: int| 0 <= t < self.trucks().len() ==> self.truck_wf(t, #[trigger] s.checkpoints[t])
        &&& forall|t: int| 0 <= t < self.trucks().len() ==> #[trigger] s.driving_times[t] == self.legs(
            self.trucks()[t].starting_terminal,
            s.checkpoints[t],
            s.checkpoints[t].len() as int,
        )
        &&& forall|c: int| 0 <= c < self.bookings().len() ==> #[trigger] self.cargo_ok(s, c)
        &&& self.loads_ok(s)
    }
}

/// The position of the terminal named `name` among the terminal data.
pub open spec fn terminal_index(terminal_data: Seq<(String, Time, Time)>, name: Seq<char>) -> int {
    choose|k: int| 0 <= k < terminal_data.len() && (#[trigger] terminal_data[k]).0@ == name
}

pub open spec fn names_distinct(names: Seq<Seq<char>>) -> bool {
    forall|i: int, j: int| 0 <= i < j < names.len() ==> names[i] != names[j]
}

pub open spec fn terminal_names(terminal_data: Seq<(String, Time, Time)>) -> Seq<Seq<char>> {
    terminal_data.map_values(|d: (String, Time, Time)| d.0@)
}

pub open spec fn truck_names(truck_data: Seq<(String, PyTruckData)>) -> Seq<Seq<char>> {
    truck_data.map_values(|d: (String, PyTruckData)| d.0@)
}

/// Whether time `t` lies in the opening hours of `terminal`, in the window
/// `[open, close)` and in the planning period.
pub open spec fn window_allows(
    terminal_data: Seq<(String, Time, Time)>,
    terminal: Seq<char>,
    open: Time,
    close: Time,
    planning_period: (Time, Time),
    t: int,
) -> bool {
    let w = terminal_data[terminal_index(terminal_data, terminal)];
    &&& w.1 <= t < w.2
    &&& open <= t < close
    &&& planning_period.0 <= t < planning_period.1
}

/// The effective window as one interval: the latest of the three starts and
/// the earliest of the three ends of `window_allows`.
pub open spec fn window_bounds(
    terminal_data: Seq<(String, Time, Time)>,
    terminal: Seq<char>,
    open: Time,
    close: Time,
    planning_period: (Time, Time),
) -> (int, int) {
    let w = terminal_data[terminal_index(terminal_data, terminal)];
    let a = if w.1 < open { open as int } else { w.1 as int };
    let lo = if a < planning_period.0 { planning_period.0 as int } else { a };
    let b = if w.2 < close { w.2 as int } else { close as int };
    let hi = if b < planning_period.1 { b } else { planning_period.1 as int };
    (lo, hi)
}

pub open spec fn pickup_allows(
    terminal_data: Seq<(String, Time, Time)>,
    b: PyBooking,
    planning_period: (Time, Time),
    t: int,
) -> bool {
    window_allows(terminal_data, b.from_terminal@, b.pickup_open_time, b.pickup_close_time, planning_period, t)
}

pub open spec fn dropoff_allows(
    terminal_data: Seq<(String, Time, Time)>,
    b: PyBooking,
    planning_period: (Time, Time),
    t: int,
) -> bool {
    window_allows(terminal_data, b.to_terminal@, b.dropoff_open_time, b.dropoff_close_time, planning_period, t)
}

/// A booking is kept when both its effective windows hold some time.
pub open spec fn booking_kept(terminal_data: Seq<(String, Time, Time)>, b: PyBooking, planning_period: (Time, Time)) -> bool {
    &&& exists|t: int| pickup_allows(terminal_data, b, planning_period, t)
    &&& exists|t: int| dropoff_allows(terminal_data, b, planning_period, t)
}

/// Error `e` names an empty interval of the input.
pub open spec fn names_empty_interval(
    e: ScheduleError,
    terminal_data: Seq<(String, Time, Time)>,
    booking_data: Seq<PyBooking>,
    planning_period: (Time, Time),
) -> bool {
    match e {
        ScheduleError::InvalidPlanningPeriod { start_time, end_time } => start_time == planning_period.0
            && end_time == planning_period.1 && start_time >= end_time,
        ScheduleError::InvalidTerminalHours { terminal, start_time, end_time } => terminal < terminal_data.len()
            && terminal_data[terminal as int].1 == start_time && terminal_data[terminal as int].2 == end_time
            && start_time >= end_time,
        ScheduleError::InvalidPickupWindow { booking, start_time, end_time } => booking < booking_data.len()
            && booking_data[booking as int].pickup_open_time == start_time && booking_data[booking as int].pickup_close_time
            == end_time && start_time >= end_time,
        ScheduleError::InvalidDropoffWindow { booking, start_time, end_time } => booking < booking_data.len()
            && booking_data[booking as int].dropoff_open_time == start_time && booking_data[booking as int].dropoff_close_time
            == end_time && start_time >= end_time,
    }
}

/// Whether the input holds an empty interval.
pub open spec fn input_invalid(
    terminal_data: Seq<(String, Time, Time)>,
    booking_data: Seq<PyBooking>,
    planning_period: (Time, Time),
) -> bool {
    ||| planning_period.0 >= planning_period.1
    ||| exists|k: int| 0 <= k < terminal_data.len() && (#[trigger] terminal_data[k]).1 >= terminal_data[k].2
    ||| exists|b: int| 0 <= b < booking_data.len() && (#[trigger] booking_data[b]).pickup_open_time
        >= booking_data[b].pickup_close_time
    ||| exists|b: int| 0 <= b < booking_data.len() && (#[trigger] booking_data[b]).dropoff_open_time
        >= booking_data[b].dropoff_close_time
}

proof fn lemma_terminal_index(terminal_data: Seq<(String, Time, Time)>, k: int)
    requires
        names_distinct(terminal_names(terminal_data)),
        0 <= k < terminal_data.len(),
    ensures
        terminal_index(terminal_data, terminal_data[k].0@) == k,
{
    let name = terminal_data[k].0@;
    let j = terminal_index(terminal_data, name);
    assert(terminal_names(terminal_data)[k] == name);
    assert(terminal_names(terminal_data)[j] == terminal_data[j].0@);
}

/// Terminal `x` is the start of a truck, or an end of a kept booking among the first `n`.
pub open spec fn terminal_used(
    terminal_data: Seq<(String, Time, Time)>,
    truck_data: Seq<(String, PyTruckData)>,
    booking_data: Seq<PyBooking>,
    planning_period: (Time, Time),
    n: int,
    x: int,
) -> bool {
    ||| exists|t: int| 0 <= t < truck_data.len() && terminal_index(terminal_data, (#[trigger] truck_data[t]).1.starting_terminal@) == x
    ||| exists|b: int| 0 <= b < n && booking_kept(terminal_data, #[trigger] booking_data[b], planning_period) && (
        terminal_index(terminal_data, booking_data[b].from_terminal@) == x || terminal_index(terminal_data, booking_data[b].to_terminal@) == x)
}

/// The effective window of a booking: terminal hours, the booking's own window and
/// the planning period, intersected.
fn effective_window(terminal_window: &IntervalChain, open: Time, close: Time, period: &Interval) -> (r: Option<IntervalChain>)
    requires
        terminal_window.wf(),
        period.wf(),
    ensures
        r is Some <==> open < close,
        r matches Some(w) ==> w.wf() && forall|t: int| w.contains(t) <==> (terminal_window.contains(t) && open <= t < close
            && period.contains(t)),
{
    let own = match Interval::new(open, close, ()) {
        Some(i) => i,
        None => {
            return None;
        },
    };
    let mut chains: Vec<IntervalChain> = Vec::new();
    chains.push(terminal_window.duplicate());
    chains.push(IntervalWithDataChain::from_interval(own));
    chains.push(IntervalWithDataChain::from_interval(*period));
    let w = intersect_all(&chains);
    proof {
        assert forall|t: int| w.contains(t) <==> (terminal_window.contains(t) && open <= t < close && period.contains(t)) by {
            assert(chains@[0]@ == terminal_window@);
            assert(chains@[1]@ == seq![own]);
            assert(chains@[2]@ == seq![*period]);
            if open <= t < close {
                assert(chains@[1]@[0] == own);
                assert(chains@[1]@[0].contains(t));
            }
            if period.contains(t) {
                assert(chains@[2]@[0] == *period);
                assert(chains@[2]@[0].contains(t));
            }
            if chains@[1].contains(t) {
                let k = choose|k: int| 0 <= k < chains@[1]@.len() && (#[trigger] chains@[1]@[k]).contains(t);
            }
            if chains@[2].contains(t) {
                let k = choose|k: int| 0 <= k < chains@[2]@.len() && (#[trigger] chains@[2]@[k]).contains(t);
            }
        }
    }
    Some(w)
}

/// Cargo `c` comes from booking `b`: same name, terminals, size, and effective windows.
pub open spec fn cargo_matches(
    cargo_ids: Seq<Seq<char>>,
    infos: Seq<BookingInformation>,
    pickups: Seq<IntervalChain>,
    dropoffs: Seq<IntervalChain>,
    terminal_data: Seq<(String, Time, Time)>,
    booking_data: Seq<PyBooking>,
    planning_period: (Time, Time),
    c: int,
    b: int,
) -> bool {
    let bk = booking_data[b];
    &&& 0 <= b < booking_data.len()
    &&& cargo_ids[c] == bk.cargo@
    &&& infos[c].from.0 == terminal_index(terminal_data, bk.from_terminal@)
    &&& infos[c].to.0 == terminal_index(terminal_data, bk.to_terminal@)
    &&& infos[c].weight_kg == bk.cargo_weight_kg
    &&& infos[c].teu == bk.cargo_teu
    &&& pickups[c]@.len() == 1
    &&& pickups[c]@[0].start() == window_bounds(terminal_data, bk.from_terminal@, bk.pickup_open_time, bk.pickup_close_time, planning_period).0
    &&& pickups[c]@[0].end() == window_bounds(terminal_data, bk.from_terminal@, bk.pickup_open_time, bk.pickup_close_time, planning_period).1
    &&& dropoffs[c]@.len() == 1
    &&& dropoffs[c]@[0].start() == window_bounds(terminal_data, bk.to_terminal@, bk.dropoff_open_time, bk.dropoff_close_time, planning_period).0
    &&& dropoffs[c]@[0].end() == window_bounds(terminal_data, bk.to_terminal@, bk.dropoff_open_time, bk.dropoff_close_time, planning_period).1
    &&& forall|t: int| pickups[c].contains(t) <==> pickup_allows(terminal_data, bk, planning_period, t)
    &&& forall|t: int| dropoffs[c].contains(t) <==> dropoff_allows(terminal_data, bk, planning_period, t)
}

/// Cargo `c` comes from one of the first `n` bookings.
pub open spec fn sourced_before(
    cargo_ids: Seq<Seq<char>>,
    infos: Seq<BookingInformation>,
    pickups: Seq<IntervalChain>,
    dropoffs: Seq<IntervalChain>,
    terminal_data: Seq<(String, Time, Time)>,
    booking_data: Seq<PyBooking>,
    planning_period: (Time, Time),
    c: int,
    n: int,
) -> bool {
    exists|b: int| 0 <= b < n && cargo_matches(cargo_ids, infos, pickups, dropoffs, terminal_data, booking_data, planning_period, c, b)
}

/// Cargo name `c` is the name of a kept booking among the first `n`.
pub open spec fn name_kept_before(
    cargo_ids: Seq<Seq<char>>,
    terminal_data: Seq<(String, Time, Time)>,
    booking_data: Seq<PyBooking>,
    planning_period: (Time, Time),
    c: int,
    n: int,
) -> bool {
    exists|b: int| 0 <= b < n && booking_kept(terminal_data, #[trigger] booking_data[b], planning_period) && cargo_ids[c] == booking_data[b].cargo@
}

/// Entry `c` of the cargo tables in construction: valid windows, terminals
/// that are marked used.
pub open spec fn cargo_entry_ok(
    infos: Seq<BookingInformation>,
    pickups: Seq<IntervalChain>,
    dropoffs: Seq<IntervalChain>,
    active: Seq<bool>,
    c: int,
) -> bool {
    &&& pickups[c].wf()
    &&& dropoffs[c].wf()
    &&& 0 <= infos[c].from.0 < active.len()
    &&& 0 <= infos[c].to.0 < active.len()
    &&& active[infos[c].from.0 as int]
    &&& active[infos[c].to.0 as int]
}

proof fn lemma_single_chain(w: IntervalChain, t: int)
    requires
        w@.len() == 1,
    ensures
        w.contains(t) <==> w@[0].contains(t),
{
}

/// What a successful construction yields from its input: a valid problem with
/// the given ids, trucks and period, no known driving times, one cargo for each
/// kept booking name with that booking's effective windows, and the used terminals.
pub open spec fn built_from(
    g: ScheduleProblem,
    terminal_data: Seq<(String, Time, Time)>,
    truck_data: Seq<(String, PyTruckData)>,
    booking_data: Seq<PyBooking>,
    planning_period: (Time, Time),
) -> bool {
    &&& g.wf()
    &&& g.period().start() == planning_period.0
    &&& g.period().end() == planning_period.1
    &&& g.terminal_ids() == terminal_names(terminal_data)
    &&& g.truck_ids() == truck_names(truck_data)
    &&& g.cache()@.len() == 0
    &&& forall|t: int| 0 <= t < truck_data.len() ==> {
        let d = (#[trigger] truck_data[t]).1;
        let x = terminal_index(terminal_data, d.starting_terminal@);
        &&& g.trucks()[t].starting_terminal.0 == x
        &&& g.trucks()[t].start_time == terminal_data[x].1
        &&& g.trucks()[t].max_weight_kg == d.max_weight_kg
        &&& g.trucks()[t].max_teu == d.max_teu
    }
    &&& forall|c: int| 0 <= c < g.bookings().len() ==> #[trigger] sourced_before(
        g.cargo_ids(), g.bookings(), g.pickup_windows(), g.dropoff_windows(),
        terminal_data, booking_data, planning_period, c, booking_data.len() as int)
    &&& forall|b: int| 0 <= b < booking_data.len() && booking_kept(terminal_data, #[trigger] booking_data[b], planning_period)
        ==> g.cargo_ids().contains(booking_data[b].cargo@)
    &&& forall|c: int| 0 <= c < g.cargo_ids().len() ==> #[trigger] name_kept_before(g.cargo_ids(), terminal_data, booking_data, planning_period, c, booking_data.len() as int)
    &&& forall|x: int| 0 <= x < terminal_data.len() ==> (#[trigger] g.active()[x] <==> terminal_used(
        terminal_data, truck_data, booking_data, planning_period, booking_data.len() as int, x))
}

impl ScheduleProblem {
    /// Builds the problem: interns the ids, computes each booking's effective
    /// pickup and dropoff windows, drops the bookings whose windows are empty,
    /// and marks the terminals that trucks and kept bookings use. Fails on the
    /// first empty interval of the input.
    #[verifier::rlimit(60)]
    pub fn new(
        terminal_data: &Vec<(String, Time, Time)>,
        truck_data: &Vec<(String, PyTruckData)>,
        booking_data: &Vec<PyBooking>,
        planning_period: (Time, Time),
    ) -> (r: Result<ScheduleProblem, ScheduleError>)
        requires
            names_distinct(terminal_names(terminal_data@)),
            names_distinct(truck_names(truck_data@)),
            forall|t: int| 0 <= t < truck_data@.len() ==> terminal_names(terminal_data@).contains(
                (#[trigger] truck_data@[t]).1.starting_terminal@),
            forall|b: int| 0 <= b < booking_data@.len() ==> terminal_names(terminal_data@).contains(
                (#[trigger] booking_data@[b]).from_terminal@) && terminal_names(terminal_data@).contains(
                booking_data@[b].to_terminal@),
        ensures
            r is Err <==> input_invalid(terminal_data@, booking_data@, planning_period),
            r matches Err(e) ==> names_empty_interval(e, terminal_data@, booking_data@, planning_period),
            r matches Ok(g) ==> built_from(g, terminal_data@, truck_data@, booking_data@, planning_period),
    {
        let period = match Interval::new(planning_period.0, planning_period.1, ()) {
            Some(i) => i,
            None => {
                return Err(
                    ScheduleError::InvalidPlanningPeriod { start_time: planning_period.0, end_time: planning_period.1 },
                );
            },
        };
        let ghost td = terminal_data@;
        let ghost bd = booking_data@;
        let ghost pp = planning_period;

        // Terminals, each with its opening window.
        let mut terminal_mapper = CounterMapper::new();
        let mut windows: Vec<IntervalChain> = Vec::new();
        let mut active: Vec<bool> = Vec::new();
        let mut k: usize = 0;
        while k < terminal_data.len()
            invariant
                td == terminal_data@,
                names_distinct(terminal_names(td)),
                k <= td.len(),
                terminal_mapper.wf(),
                terminal_mapper@ == terminal_names(td).take(k as int),
                windows@.len() == k,
                active@.len() == k,
                forall|i: int| 0 <= i < k ==> !(#[trigger] active@[i]),
                forall|i: int| 0 <= i < k ==> (#[trigger] td[i]).1 < td[i].2,
                forall|i: int| 0 <= i < k ==> (#[trigger] windows@[i]).wf() && windows@[i]@.len() == 1
                    && windows@[i]@[0].start() == td[i].1 && windows@[i]@[0].end() == td[i].2,
            decreases td.len() - k,
        {
            let entry = &terminal_data[k];
            proof {
                assert(terminal_names(td)[k as int] == entry.0@);
                if terminal_mapper@.contains(entry.0@) {
                    let j = choose|j: int| 0 <= j < terminal_mapper@.len() && terminal_mapper@[j] == entry.0@;
                    assert(terminal_names(td)[j] == entry.0@);
                }
            }
            let _terminal: Terminal = terminal_mapper.add_or_find(&entry.0);
            proof {
                assert(terminal_mapper@ =~= terminal_names(td).take(k + 1));
            }
            let interval = match Interval::new(entry.1, entry.2, ()) {
                Some(i) => i,
                None => {
                    let e = ScheduleError::InvalidTerminalHours { terminal: k, start_time: entry.1, end_time: entry.2 };
                    proof {
                        assert(input_invalid(td, bd, pp)) by {
                            assert(td[k as int].1 >= td[k as int].2);
                        }
                    }
                    return Err(e);
                },
            };
            windows.push(IntervalWithDataChain::from_interval(interval));
            active.push(false);
            k = k + 1;
        }
        proof {
            assert(terminal_names(td).take(td.len() as int) == terminal_names(td));
        }

        // Trucks, each starting at the opening of its terminal.
        let mut truck_mapper = CounterMapper::new();
        let mut trucks: Vec<TruckData> = Vec::new();
        let mut t: usize = 0;
        while t < truck_data.len()
            invariant
                td == terminal_data@,
                names_distinct(terminal_names(td)),
                names_distinct(truck_names(truck_data@)),
                forall|i: int| 0 <= i < truck_data@.len() ==> terminal_names(td).contains(
                    (#[trigger] truck_data@[i]).1.starting_terminal@),
                t <= truck_data@.len(),
                terminal_mapper.wf(),
                terminal_mapper@ == terminal_names(td),
                truck_mapper.wf(),
                truck_mapper@ == truck_names(truck_data@).take(t as int),
                windows@.len() == td.len(),
                active@.len() == td.len(),
                forall|i: int| 0 <= i < td.len() ==> (#[trigger] windows@[i]).wf() && windows@[i]@.len() == 1
                    && windows@[i]@[0].start() == td[i].1 && windows@[i]@[0].end() == td[i].2,
                trucks@.len() == t,
                forall|i: int| 0 <= i < t ==> {
                    let d = (#[trigger] truck_data@[i]).1;
                    let x = terminal_index(td, d.starting_terminal@);
                    &&& trucks@[i].starting_terminal.0 == x
                    &&& 0 <= x < td.len()
                    &&& trucks@[i].start_time == td[x].1
                    &&& trucks@[i].max_weight_kg == d.max_weight_kg
                    &&& trucks@[i].max_teu == d.max_teu
                },
                forall|x: int| 0 <= x < td.len() ==> (#[trigger] active@[x] <==> exists|i: int| 0 <= i < t
                    && terminal_index(td, (#[trigger] truck_data@[i]).1.starting_terminal@) == x),
            decreases truck_data@.len() - t,
        {
            let entry = &truck_data[t];
            proof {
                assert(truck_names(truck_data@)[t as int] == entry.0@);
                if truck_mapper@.contains(entry.0@) {
                    let j = choose|j: int| 0 <= j < truck_mapper@.len() && truck_mapper@[j] == entry.0@;
                    assert(truck_names(truck_data@)[j] == entry.0@);
                }
            }
            let _truck: Truck = truck_mapper.add_or_find(&entry.0);
            proof {
                assert(truck_mapper@ =~= truck_names(truck_data@).take(t + 1));
            }
            let start: Terminal = match terminal_mapper.reverse_map(&entry.1.starting_terminal) {
                Some(x) => x,
                None => {
                    proof {
                        assert(terminal_names(td).contains(truck_data@[t as int].1.starting_terminal@));
                    }
                    return unreached();
                },
            };
            proof {
                lemma_terminal_index(td, start.0 as int);
                assert(terminal_names(td)[start.0 as int] == td[start.0 as int].0@);
            }
            let start_time = windows[start.0].get_intervals()[0].get_start_time();
            active[start.0] = true;
            trucks.push(TruckData {
                starting_terminal: start,
                start_time,
                max_weight_kg: entry.1.max_weight_kg,
                max_teu: entry.1.max_teu,
            });
            t = t + 1;
            proof {
                assert forall|x: int| 0 <= x < td.len() implies (#[trigger] active@[x] <==> exists|i: int| 0 <= i < t
                    && terminal_index(td, (#[trigger] truck_data@[i]).1.starting_terminal@) == x) by {
                    if x == start.0 {
                        assert(terminal_index(td, truck_data@[t - 1].1.starting_terminal@) == x);
                    }
                }
            }
        }
        proof {
            assert(truck_names(truck_data@).take(truck_data@.len() as int) == truck_names(truck_data@));
        }

        // Bookings, kept when both their effective windows are non-empty.
        let mut cargo_mapper = CounterMapper::new();
        let mut infos: Vec<BookingInformation> = Vec::new();
        let mut pickups: Vec<IntervalChain> = Vec::new();
        let mut dropoffs: Vec<IntervalChain> = Vec::new();
        let mut b: usize = 0;
        while b < booking_data.len()
            invariant
                td == terminal_data@,
                bd == booking_data@,
                pp == planning_period,
                period.wf(),
                period.start() == pp.0,
                period.end() == pp.1,
                names_distinct(terminal_names(td)),
                forall|i: int| 0 <= i < bd.len() ==> terminal_names(td).contains((#[trigger] bd[i]).from_terminal@)
                    && terminal_names(td).contains(bd[i].to_terminal@),
                b <= bd.len(),
                forall|i: int| 0 <= i < b ==> (#[trigger] bd[i]).pickup_open_time < bd[i].pickup_close_time
                    && bd[i].dropoff_open_time < bd[i].dropoff_close_time,
                terminal_mapper.wf(),
                terminal_mapper@ == terminal_names(td),
                windows@.len() == td.len(),
                active@.len() == td.len(),
                forall|i: int| 0 <= i < td.len() ==> (#[trigger] windows@[i]).wf() && windows@[i]@.len() == 1
                    && windows@[i]@[0].start() == td[i].1 && windows@[i]@[0].end() == td[i].2,
                cargo_mapper.wf(),
                infos@.len() == cargo_mapper@.len(),
                pickups@.len() == cargo_mapper@.len(),
                dropoffs@.len() == cargo_mapper@.len(),
                forall|c: int| 0 <= c < infos@.len() ==> #[trigger] sourced_before(
                    cargo_mapper@, infos@, pickups@, dropoffs@, td, bd, pp, c, b as int),
                forall|c: int| 0 <= c < infos@.len() ==> #[trigger] cargo_entry_ok(infos@, pickups@, dropoffs@, active@, c),
                forall|i: int| 0 <= i < b && booking_kept(td, #[trigger] bd[i], pp) ==> cargo_mapper@.contains(bd[i].cargo@),
                forall|c: int| 0 <= c < cargo_mapper@.len() ==> #[trigger] name_kept_before(cargo_mapper@, td, bd, pp, c, b as int),
                forall|x: int| 0 <= x < td.len() ==> (#[trigger] active@[x] <==> terminal_used(
                    td, truck_data@, bd, pp, b as int, x)),
            decreases bd.len() - b,
        {
            let booking = &booking_data[b];
            let from: Terminal = match terminal_mapper.reverse_map(&booking.from_terminal) {
                Some(x) => x,
                None => {
                    proof {
                        assert(terminal_names(td).contains(bd[b as int].from_terminal@));
                    }
                    return unreached();
                },
            };
            let to: Terminal = match terminal_mapper.reverse_map(&booking.to_terminal) {
                Some(x) => x,
                None => {
                    proof {
                        assert(terminal_names(td).contains(bd[b as int].to_terminal@));
                    }
                    return unreached();
                },
            };
            proof {
                lemma_terminal_index(td, from.0 as int);
                lemma_terminal_index(td, to.0 as int);
                assert(terminal_names(td)[from.0 as int] == td[from.0 as int].0@);
                assert(terminal_names(td)[to.0 as int] == td[to.0 as int].0@);
            }
            let pickup = match effective_window(&windows[from.0], booking.pickup_open_time, booking.pickup_close_time, &period) {
                Some(w) => w,
                None => {
                    let e = ScheduleError::InvalidPickupWindow {
                        booking: b,
                        start_time: booking.pickup_open_time,
                        end_time: booking.pickup_close_time,
                    };
                    proof {
                        assert(input_invalid(td, bd, pp)) by {
                            assert(bd[b as int].pickup_open_time >= bd[b as int].pickup_close_time);
                        }
                    }
                    return Err(e);
                },
            };
            let dropoff = match effective_window(&windows[to.0], booking.dropoff_open_time, booking.dropoff_close_time, &period) {
                Some(w) => w,
                None => {
                    let e = ScheduleError::InvalidDropoffWindow {
                        booking: b,
                        start_time: booking.dropoff_open_time,
                        end_time: booking.dropoff_close_time,
                    };
                    proof {
                        assert(input_invalid(td, bd, pp)) by {
                            assert(bd[b as int].dropoff_open_time >= bd[b as int].dropoff_close_time);
                        }
                    }
                    return Err(e);
                },
            };
            proof {
                assert forall|t: int| pickup.contains(t) <==> pickup_allows(td, bd[b as int], pp, t) by {
                    lemma_single_chain(windows@[from.0 as int], t);
                }
                assert forall|t: int| dropoff.contains(t) <==> dropoff_allows(td, bd[b as int], pp, t) by {
                    lemma_single_chain(windows@[to.0 as int], t);
                }
            }
            let ghost old_active = active@;
            if pickup.is_empty() || dropoff.is_empty() {
                proof {
                    if booking_kept(td, bd[b as int], pp) {
                        let t1 = choose|t: int| pickup_allows(td, bd[b as int], pp, t);
                        let t2 = choose|t: int| dropoff_allows(td, bd[b as int], pp, t);
                        assert(pickup.contains(t1));
                        assert(dropoff.contains(t2));
                    }
                    assert forall|x: int| 0 <= x < td.len() implies (#[trigger] active@[x] <==> terminal_used(
                        td, truck_data@, bd, pp, b + 1, x)) by {
                        if terminal_used(td, truck_data@, bd, pp, b + 1, x) && !terminal_used(td, truck_data@, bd, pp, b as int, x) {
                            let i = choose|i: int| 0 <= i < b + 1 && booking_kept(td, #[trigger] bd[i], pp) && (
                                terminal_index(td, bd[i].from_terminal@) == x || terminal_index(td, bd[i].to_terminal@) == x);
                            assert(i == b);
                        }
                    }
                }
                proof {
                    assert forall|c: int| 0 <= c < infos@.len() implies #[trigger] sourced_before(
                        cargo_mapper@, infos@, pickups@, dropoffs@, td, bd, pp, c, b + 1) by {
                        assert(sourced_before(cargo_mapper@, infos@, pickups@, dropoffs@, td, bd, pp, c, b as int));
                        let i = choose|i: int| 0 <= i < b && cargo_matches(
                            cargo_mapper@, infos@, pickups@, dropoffs@, td, bd, pp, c, i);
                    }
                    assert forall|c: int| 0 <= c < cargo_mapper@.len() implies #[trigger] name_kept_before(cargo_mapper@, td, bd, pp, c, b + 1) by {
                        assert(name_kept_before(cargo_mapper@, td, bd, pp, c, b as int));
                        let i = choose|i: int| 0 <= i < b && booking_kept(td, #[trigger] bd[i], pp) && cargo_mapper@[c] == bd[i].cargo@;
                    }
                }
                b = b + 1;
            } else {
                proof {
                    assert(pickup.contains(pickup@[0].start() as int));
                    assert(dropoff.contains(dropoff@[0].start() as int));
                    assert(booking_kept(td, bd[b as int], pp));
                    let bk = bd[b as int];
                    let pw = window_bounds(td, bk.from_terminal@, bk.pickup_open_time, bk.pickup_close_time, pp);
                    let dw = window_bounds(td, bk.to_terminal@, bk.dropoff_open_time, bk.dropoff_close_time, pp);
                    assert(pickup_allows(td, bk, pp, pickup@[0].start() as int));
                    assert(dropoff_allows(td, bk, pp, dropoff@[0].start() as int));
                    assert forall|t: int| #[trigger] crate::intervals::covers(pickup@, t) <==> pw.0 <= t < pw.1 by {
                        assert(pickup.contains(t) <==> pickup_allows(td, bk, pp, t));
                    }
                    assert forall|t: int| #[trigger] crate::intervals::covers(dropoff@, t) <==> dw.0 <= t < dw.1 by {
                        assert(dropoff.contains(t) <==> dropoff_allows(td, bk, pp, t));
                    }
                    crate::intervals::lemma_chain_of_interval(pickup@, pw.0, pw.1);
                    crate::intervals::lemma_chain_of_interval(dropoff@, dw.0, dw.1);
                }
                active[from.0] = true;
                active[to.0] = true;
                let ghost old_ids = cargo_mapper@;
                let ghost old_infos = infos@;
                let ghost old_pickups = pickups@;
                let ghost old_dropoffs = dropoffs@;
                let cargo: Cargo = cargo_mapper.add_or_find(&booking.cargo);
                let info = BookingInformation {
                    from,
                    to,
                    weight_kg: booking.cargo_weight_kg,
                    teu: booking.cargo_teu,
                };
                if cargo.0 == infos.len() {
                    infos.push(info);
                    pickups.push(pickup);
                    dropoffs.push(dropoff);
                } else {
                    infos[cargo.0] = info;
                    pickups[cargo.0] = pickup;
                    dropoffs[cargo.0] = dropoff;
                }
                b = b + 1;
                proof {
                    assert forall|c: int| 0 <= c < infos@.len() implies #[trigger] sourced_before(
                        cargo_mapper@, infos@, pickups@, dropoffs@, td, bd, pp, c, b as int) by {
                        if c == cargo.0 {
                            assert(cargo_matches(cargo_mapper@, infos@, pickups@, dropoffs@, td, bd, pp, c, b - 1));
                        } else {
                            assert(sourced_before(old_ids, old_infos, old_pickups, old_dropoffs, td, bd, pp, c, b - 1));
                            let i = choose|i: int| 0 <= i < b - 1 && cargo_matches(
                                old_ids, old_infos, old_pickups, old_dropoffs, td, bd, pp, c, i);
                            assert(cargo_mapper@[c] == old_ids[c]);
                            assert(cargo_matches(cargo_mapper@, infos@, pickups@, dropoffs@, td, bd, pp, c, i));
                        }
                    }
                    assert forall|c: int| 0 <= c < infos@.len() implies #[trigger] cargo_entry_ok(infos@, pickups@, dropoffs@, active@, c) by {
                        if c != cargo.0 {
                            assert(cargo_entry_ok(old_infos, old_pickups, old_dropoffs, old_active, c));
                        }
                    }
                    assert forall|i: int| 0 <= i < b && booking_kept(td, #[trigger] bd[i], pp) implies cargo_mapper@.contains(bd[i].cargo@) by {
                        if i < b - 1 {
                            let j = choose|j: int| 0 <= j < old_ids.len() && old_ids[j] == bd[i].cargo@;
                            assert(cargo_mapper@[j] == old_ids[j]);
                        } else {
                            assert(cargo_mapper@[cargo.0 as int] == bd[i].cargo@);
                        }
                    }
                    assert forall|c: int| 0 <= c < cargo_mapper@.len() implies #[trigger] name_kept_before(cargo_mapper@, td, bd, pp, c, b as int) by {
                        if c < old_ids.len() {
                            assert(name_kept_before(old_ids, td, bd, pp, c, b - 1));
                            let i = choose|i: int| 0 <= i < b - 1 && booking_kept(td, #[trigger] bd[i], pp) && old_ids[c] == bd[i].cargo@;
                            assert(cargo_mapper@[c] == old_ids[c]);
                        } else {
                            assert(cargo_mapper@[c] == bd[b - 1].cargo@);
                        }
                    }
                    assert forall|x: int| 0 <= x < td.len() implies (#[trigger] active@[x] <==> terminal_used(
                        td, truck_data@, bd, pp, b as int, x)) by {
                        if x == from.0 || x == to.0 {
                            assert(booking_kept(td, bd[b - 1], pp));
                        } else {
                            assert(active@[x] == old_active[x]);
                            if terminal_used(td, truck_data@, bd, pp, b as int, x) && !terminal_used(td, truck_data@, bd, pp, b - 1, x) {
                                let i = choose|i: int| 0 <= i < b && booking_kept(td, #[trigger] bd[i], pp) && (
                                    terminal_index(td, bd[i].from_terminal@) == x || terminal_index(td, bd[i].to_terminal@) == x);
                                assert(i == b - 1);
                            }
                        }
                    }
                }
            }
        }
        let g = ScheduleProblem {
            driving_times_cache: DrivingTimesCache::new(),
            pickup_times: pickups,
            dropoff_times: dropoffs,
            cargo_booking_info: infos,
            terminal_active: active,
            truck_data: trucks,
            planning_period: period,
            terminal_mapper,
            cargo_mapper,
            truck_mapper,
        };
        proof {
            assert(!input_invalid(td, bd, pp));
            assert forall|tr: int| 0 <= tr < g.trucks().len() implies g.is_terminal((#[trigger] g.trucks()[tr]).starting_terminal) by {
                assert(terminal_index(td, truck_data@[tr].1.starting_terminal@) == g.trucks()[tr].starting_terminal.0);
                assert(terminal_used(td, truck_data@, bd, pp, bd.len() as int, g.trucks()[tr].starting_terminal.0 as int));
            }
            assert forall|c: int| 0 <= c < g.bookings().len() implies g.is_terminal((#[trigger] g.bookings()[c]).from)
                && g.is_terminal(g.bookings()[c].to) && g.pickup_windows()[c].wf() && g.dropoff_windows()[c].wf() by {
                assert(cargo_entry_ok(g.cargo_booking_info@, g.pickup_times@, g.dropoff_times@, g.terminal_active@, c));
            }
            assert(g.trucks().len() == g.truck_ids().len());
            assert(g.bookings().len() == g.cargo_ids().len());
            assert(g.active().len() == g.terminal_ids().len());
            assert(g.period().wf());
            assert forall|c: int| 0 <= c < g.bookings().len() implies (#[trigger] g.pickup_windows()[c]).wf() by {
                assert(g.is_terminal(g.bookings()[c].from));
            }
            assert forall|c: int| 0 <= c < g.bookings().len() implies (#[trigger] g.dropoff_windows()[c]).wf() by {
                assert(g.is_terminal(g.bookings()[c].from));
            }
            assert(g.wf());
            assert(g.terminal_ids() == terminal_names(terminal_data@));
            assert(g.truck_ids() == truck_names(truck_data@));
            assert(g.cache()@.len() == 0);
            assert(forall|c: int| 0 <= c < g.bookings().len() ==> #[trigger] sourced_before(
                    g.cargo_ids(), g.bookings(), g.pickup_windows(), g.dropoff_windows(),
                    terminal_data@, booking_data@, planning_period, c, booking_data@.len() as int));
            assert(built_from(g, terminal_data@, truck_data@, booking_data@, planning_period));
        }
        Ok(g)
    }
}

/// The ids of the used terminals among the first `n`, in index order.
pub open spec fn active_ids(ids: Seq<Seq<char>>, active: Seq<bool>, n: int) -> Seq<Seq<char>>
    decreases n,
{
    if n <= 0 {
        Seq::empty()
    } else if active[n - 1] {
        active_ids(ids, active, n - 1).push(ids[n - 1])
    } else {
        active_ids(ids, active, n - 1)
    }
}

/// Times of `cps` strictly increase.
pub open spec fn strictly_increasing(cps: Seq<CheckpointModel>) -> bool {
    forall|a: int, b: int| 0 <= a < b < cps.len() ==> #[trigger] cps[a].time < #[trigger] cps[b].time
}

/// The last checkpoint with a time that satisfies `before`, and the first after `t`.
pub open spec fn gap_result(cps: Seq<CheckpointModel>, t: int, weak: bool, r: (Option<usize>, Option<usize>)) -> bool {
    &&& match r.0 {
        Some(i) => i < cps.len() && (if weak { cps[i as int].time <= t } else { cps[i as int].time < t })
            && forall|m: int| i < m < cps.len() ==> !(if weak { #[trigger] cps[m].time <= t } else { cps[m].time < t }),
        None => forall|m: int| 0 <= m < cps.len() ==> !(if weak { #[trigger] cps[m].time <= t } else { cps[m].time < t }),
    }
    &&& match r.1 {
        Some(j) => j < cps.len() && cps[j as int].time > t && forall|m: int| 0 <= m < j ==> #[trigger] cps[m].time <= t,
        None => forall|m: int| 0 <= m < cps.len() ==> #[trigger] cps[m].time <= t,
    }
}

fn find_gap(cps: &Vec<Checkpoint>, t: Time, weak: bool) -> (r: (Option<usize>, Option<usize>))
    ensures
        gap_result(cps_view(cps@), t as int, weak, r),
{
    let ghost v = cps_view(cps@);
    let n = cps.len();
    let mut prev: Option<usize> = None;
    let mut i: usize = 0;
    while i < n
        invariant
            n == cps@.len(),
            v == cps_view(cps@),
            i <= n,
            match prev {
                Some(p) => p < i && (if weak { v[p as int].time <= t } else { v[p as int].time < t })
                    && forall|m: int| p < m < i ==> !(if weak { #[trigger] v[m].time <= t } else { v[m].time < t }),
                None => forall|m: int| 0 <= m < i ==> !(if weak { #[trigger] v[m].time <= t } else { v[m].time < t }),
            },
        decreases n - i,
    {
        proof {
            assert(v[i as int].time == cps@[i as int].time);
        }
        let time = cps[i].time;
        if (weak && time <= t) || (!weak && time < t) {
            prev = Some(i);
        }
        i = i + 1;
    }
    let mut next: Option<usize> = None;
    let mut j: usize = 0;
    while j < n && next.is_none()
        invariant
            n == cps@.len(),
            v == cps_view(cps@),
            j <= n,
            match next {
                Some(q) => q < n && v[q as int].time > t && forall|m: int| 0 <= m < q ==> #[trigger] v[m].time <= t,
                None => forall|m: int| 0 <= m < j ==> #[trigger] v[m].time <= t,
            },
        decreases n - j, (if next.is_none() { 1int } else { 0int }),
    {
        proof {
            assert(v[j as int].time == cps@[j as int].time);
        }
        if cps[j].time > t {
            next = Some(j);
        } else {
            j = j + 1;
        }
    }
    (prev, next)
}

impl Schedule {
    /// The checkpoints of `truck` directly before and after `checkpoint` in time:
    /// the last one strictly earlier and the first one strictly later.
    pub fn get_prev_and_next_checkpoints(&self, truck: Truck, checkpoint: &Checkpoint) -> (r: (Option<usize>, Option<usize>))
        requires
            truck.0 < self@.checkpoints.len(),
        ensures
            gap_result(self@.checkpoints[truck.0 as int], checkpoint.time as int, false, r),
    {
        find_gap(&self.truck_checkpoints[truck.0], checkpoint.time, false)
    }

    /// The checkpoints of `truck` around the gap that holds `time`: the last one
    /// at or before it and the first one after it. At the time of a checkpoint,
    /// that checkpoint and its successor.
    pub fn get_checkpoints_around_gap(&self, truck: Truck, time: Time) -> (r: (Option<usize>, Option<usize>))
        requires
            truck.0 < self@.checkpoints.len(),
        ensures
            gap_result(self@.checkpoints[truck.0 as int], time as int, true, r),
            strictly_increasing(self@.checkpoints[truck.0 as int]) ==> forall|i: int|
                0 <= i < self@.checkpoints[truck.0 as int].len() && #[trigger] self@.checkpoints[truck.0 as int][i].time == time
                ==> r.0 == Some(i as usize) && r.1 == (if i + 1 < self@.checkpoints[truck.0 as int].len() {
                    Some((i + 1) as usize)
                } else {
                    None
                }),
    {
        let r = find_gap(&self.truck_checkpoints[truck.0], time, true);
        proof {
            let v = self@.checkpoints[truck.0 as int];
            if strictly_increasing(v) {
                assert forall|i: int| 0 <= i < v.len() && #[trigger] v[i].time == time implies r.0 == Some(i as usize)
                    && r.1 == (if i + 1 < v.len() { Some((i + 1) as usize) } else { None }) by {
                    match r.0 {
                        Some(p) => {
                            if (p as int) < i {
                                assert(v[i].time <= time);
                            } else if (p as int) > i {
                                assert(v[i].time < v[p as int].time);
                            }
                        },
                        None => {
                            assert(v[i].time <= time);
                        },
                    }
                    match r.1 {
                        Some(q) => {
                            if (q as int) <= i {
                                assert(v[q as int].time <= v[i].time);
                            } else if (q as int) > i + 1 {
                                assert(v[i + 1].time <= time);
                                assert(v[i].time < v[i + 1].time);
                            }
                        },
                        None => {
                            if i + 1 < v.len() {
                                assert(v[i + 1].time <= time);
                                assert(v[i].time < v[i + 1].time);
                            }
                        },
                    }
                }
            }
        }
        r
    }
}

impl ScheduleProblem {
    proof fn lemma_legs_prefix(&self, start: Terminal, a: Seq<CheckpointModel>, b: Seq<CheckpointModel>, n: int)
        requires
            0 <= n <= a.len(),
            n <= b.len(),
            forall|k: int| 0 <= k < n ==> (#[trigger] a[k]).terminal == b[k].terminal,
        ensures
            self.legs(start, a, n) == self.legs(start, b, n),
        decreases n,
    {
        if n > 0 {
            self.lemma_legs_prefix(start, a, b, n - 1);
            if n > 1 {
                assert(a[n - 2].terminal == b[n - 2].terminal);
            }
            assert(a[n - 1].terminal == b[n - 1].terminal);
        }
    }

    /// Inserting checkpoint `x` at position `p` replaces the leg `A -> C` around
    /// it with `A -> x -> C` (or adds `A -> x` at the end).
    proof fn lemma_legs_insert(&self, start: Terminal, cps: Seq<CheckpointModel>, p: int, x: CheckpointModel, n: int)
        requires
            0 <= p < n <= cps.len(),
        ensures
            self.legs(start, cps.insert(p, x), n + 1) == self.legs(start, cps, n) - self.drive(
                prev_terminal(start, cps, p),
                cps[p].terminal,
            ) + self.drive(prev_terminal(start, cps, p), x.terminal) + self.drive(x.terminal, cps[p].terminal),
        decreases n,
    {
        let ns = cps.insert(p, x);
        if n == p + 1 {
            assert forall|k: int| 0 <= k < p implies (#[trigger] ns[k]).terminal == cps[k].terminal by {}
            self.lemma_legs_prefix(start, ns, cps, p);
            assert(ns[p] == x);
            assert(ns[p + 1] == cps[p]);
            if p > 0 {
                assert(ns[p - 1] == cps[p - 1]);
            }
            assert(self.legs(start, ns, p + 1) == self.legs(start, ns, p) + self.drive(prev_terminal(start, cps, p), x.terminal));
        } else {
            self.lemma_legs_insert(start, cps, p, x, n - 1);
            assert(ns[n] == cps[n - 1]);
            assert(ns[n - 1] == cps[n - 2]);
        }
    }

    proof fn lemma_legs_append(&self, start: Terminal, cps: Seq<CheckpointModel>, x: CheckpointModel)
        ensures
            self.legs(start, cps.push(x), cps.len() + 1 as int) == self.legs(start, cps, cps.len() as int) + self.drive(
                prev_terminal(start, cps, cps.len() as int),
                x.terminal,
            ),
    {
        let ns = cps.push(x);
        assert forall|k: int| 0 <= k < cps.len() implies (#[trigger] ns[k]).terminal == cps[k].terminal by {}
        self.lemma_legs_prefix(start, ns, cps, cps.len() as int);
        if cps.len() > 0 {
            assert(ns[cps.len() - 1] == cps[cps.len() - 1]);
        }
    }

    /// The legs of a valid truck take no longer than the time up to its last checkpoint.
    proof fn lemma_legs_bound(&self, t: int, cps: Seq<CheckpointModel>, n: int)
        requires
            self.truck_wf(t, cps),
            0 <= n <= cps.len(),
        ensures
            0 <= self.legs(self.trucks()[t].starting_terminal, cps, n),
            n > 0 ==> self.legs(self.trucks()[t].starting_terminal, cps, n) <= cps[n - 1].time - self.period().start(),
        decreases n,
    {
        if n > 0 {
            self.lemma_legs_bound(t, cps, n - 1);
            assert(self.checkpoint_ok(self.trucks()[t], cps, n - 1));
        }
    }

    /// Driving time between two used terminals.
    fn drive_between(&self, from: Terminal, to: Terminal) -> (r: NonNegativeTimeDelta)
        requires
            self.drive_complete(),
            self.is_terminal(from),
            self.is_terminal(to),
        ensures
            r == self.drive(from, to),
    {
        proof {
            assert(self.cache().known(from.0 as int, to.0 as int));
        }
        self.driving_times_cache.get_driving_time(from, to)
    }
}

/// The terminal before a gap whose earlier checkpoint is `prev`.
pub open spec fn gap_prev_terminal(start: Terminal, cps: Seq<CheckpointModel>, prev: Option<usize>) -> Terminal {
    match prev {
        Some(i) => cps[i as int].terminal,
        None => start,
    }
}

impl ScheduleProblem {
    pub open spec fn gap_prev_time(&self, cps: Seq<CheckpointModel>, prev: Option<usize>) -> int {
        match prev {
            Some(i) => cps[i as int].time as int,
            None => self.period().start() as int,
        }
    }

    pub open spec fn gap_next_time(&self, cps: Seq<CheckpointModel>, next: Option<usize>) -> int {
        match next {
            Some(j) => cps[j as int].time as int,
            None => self.period().end() as int,
        }
    }

    pub open spec fn gap_next_drive(&self, cps: Seq<CheckpointModel>, next: Option<usize>, x: Terminal) -> int {
        match next {
            Some(j) => self.drive(x, cps[j as int].terminal),
            None => 0,
        }
    }

    /// The times at which a checkpoint at `new_terminal` can stand between `prev`
    /// and `next` of a truck starting at `start`, leaving time to drive in and
    /// out: `[prev_time + in, next_time - out)`; none when that is empty.
    fn get_driving_time_constraints(
        &self,
        start: Terminal,
        cps: &Vec<Checkpoint>,
        prev: Option<usize>,
        next: Option<usize>,
        new_terminal: Terminal,
    ) -> (r: Option<Interval>)
        requires
            self.wf(),
            self.drive_complete(),
            self.is_terminal(start),
            self.is_terminal(new_terminal),
            prev matches Some(i) ==> i < cps@.len() && self.is_terminal(cps@[i as int].terminal),
            next matches Some(j) ==> j < cps@.len() && self.is_terminal(cps@[j as int].terminal),
        ensures
            ({
                let v = cps_view(cps@);
                let lo = self.gap_prev_time(v, prev) + self.drive(gap_prev_terminal(start, v, prev), new_terminal);
                let hi = self.gap_next_time(v, next) - self.gap_next_drive(v, next, new_terminal);
                &&& r.is_some() <==> lo < hi
                &&& r matches Some(iv) ==> iv.start() == lo && iv.end() == hi
            }),
    {
        let ghost v = cps_view(cps@);
        let (prev_time, prev_terminal) = match prev {
            Some(i) => {
                proof {
                    assert(v[i as int].time == cps@[i as int].time);
                }
                (cps[i].time, cps[i].terminal)
            },
            None => (self.planning_period.get_start_time(), start),
        };
        let (next_time, out_drive) = match next {
            Some(j) => {
                proof {
                    assert(v[j as int].time == cps@[j as int].time);
                }
                (cps[j].time, self.drive_between(new_terminal, cps[j].terminal))
            },
            None => (self.planning_period.get_end_time(), 0),
        };
        let in_drive = self.drive_between(prev_terminal, new_terminal);
        let lo = match prev_time.checked_add(in_drive) {
            Some(x) => x,
            None => return None,
        };
        let hi = match next_time.checked_sub(out_drive) {
            Some(x) => x,
            None => return None,
        };
        Interval::new(lo, hi, ())
    }
}

impl ScheduleProblem {
    proof fn lemma_sorted(&self, t: int, cps: Seq<CheckpointModel>)
        requires
            self.truck_wf(t, cps),
        ensures
            strictly_increasing(cps),
    {
        assert forall|a: int, b: int| 0 <= a < b < cps.len() implies #[trigger] cps[a].time < #[trigger] cps[b].time by {
            self.lemma_sorted_from(t, cps, a, b);
        }
    }

    proof fn lemma_sorted_from(&self, t: int, cps: Seq<CheckpointModel>, a: int, b: int)
        requires
            self.truck_wf(t, cps),
            0 <= a < b < cps.len(),
        ensures
            cps[a].time < cps[b].time,
        decreases b - a,
    {
        assert(self.checkpoint_ok(self.trucks()[t], cps, b));
        if a < b - 1 {
            self.lemma_sorted_from(t, cps, a, b - 1);
        }
    }

    /// Inserting a checkpoint that fits between its neighbours keeps a truck valid.
    proof fn lemma_insert_wf(&self, t: int, cps: Seq<CheckpointModel>, p: int, x: CheckpointModel)
        requires
            self.truck_wf(t, cps),
            0 <= p <= cps.len(),
            ({
                let td = self.trucks()[t];
                let start = td.starting_terminal;
                &&& self.is_terminal(x.terminal)
                &&& x.terminal != prev_terminal(start, cps, p)
                &&& self.prev_time(cps, p) + self.drive(prev_terminal(start, cps, p), x.terminal) <= x.time
                &&& (p > 0 ==> cps[p - 1].time < x.time)
                &&& x.time < self.period().end()
                &&& x.available_teu <= td.max_teu
                &&& x.available_weight_kg <= td.max_weight_kg
                &&& x.pickup_cargo.len() == 0
                &&& x.dropoff_cargo.len() == 0
                &&& p < cps.len() ==> x.terminal != cps[p].terminal && x.time < cps[p].time && x.time + self.drive(
                    x.terminal,
                    cps[p].terminal,
                ) <= cps[p].time
            }),
        ensures
            self.truck_wf(t, cps.insert(p, x)),
    {
        let ns = cps.insert(p, x);
        let td = self.trucks()[t];
        assert forall|k: int| 0 <= k < ns.len() implies #[trigger] self.checkpoint_ok(td, ns, k) by {
            if k < p {
                assert(self.checkpoint_ok(td, cps, k));
                assert(ns[k] == cps[k]);
                if k > 0 {
                    assert(ns[k - 1] == cps[k - 1]);
                }
            } else if k == p {
                assert(ns[k] == x);
                if k > 0 {
                    assert(ns[k - 1] == cps[k - 1]);
                }
            } else if k == p + 1 {
                assert(self.checkpoint_ok(td, cps, p));
                assert(ns[k] == cps[p]);
                assert(ns[k - 1] == x);
            } else {
                assert(self.checkpoint_ok(td, cps, k - 1));
                assert(ns[k] == cps[k - 1]);
                assert(ns[k - 1] == cps[k - 2]);
            }
        }
    }

    /// Adds a checkpoint with no pickups or dropoffs to a random truck, in the
    /// gap that holds a random time of the planning period, at a terminal from
    /// which, or to which, some unscheduled cargo could travel, at a random time
    /// that leaves time to drive in and out. None when no terminal or no time
    /// fits, or when the drawn time is not strictly after the previous
    /// checkpoint (which only a zero driving time allows).
    #[verifier::rlimit(60)]
    fn add_random_checkpoint(&self, rng: &mut Xoshiro256PlusPlus, schedule: &Schedule) -> (r: Option<Schedule>)
        requires
            self.wf(),
            self.drive_complete(),
            self.schedule_wf(schedule@),
        ensures
            r matches Some(s) ==> self.schedule_wf(s@),
            r matches Some(s) ==> some_checkpoint_inserted(schedule@, s@),
            r matches Some(s) ==> self.some_fitting_checkpoint_inserted(schedule@, s@),
    {
        let n_trucks = self.truck_data.len();
        if n_trucks == 0 {
            return None;
        }
        let truck = random_index(rng, n_trucks);
        let gap_time = match choose_in_range(rng, self.planning_period.get_start_time(), self.planning_period.get_end_time()) {
            Some(t) => t,
            None => return None,
        };
        let cps = &schedule.truck_checkpoints[truck];
        let ghost v = cps_view(cps@);
        proof {
            schedule.lemma_view();
            assert(schedule@.checkpoints[truck as int] == v);
            assert(self.truck_wf(truck as int, v));
            self.lemma_sorted(truck as int, v);
        }
        let (prev, next) = schedule.get_checkpoints_around_gap(Truck(truck), gap_time);
        let len = cps.len();
        let p: usize = match next {
            Some(j) => j,
            None => len,
        };
        proof {
            match prev {
                Some(i) => {
                    if (i as int) < p - 1 {
                        assert(v[p - 1].time <= gap_time);
                    }
                    if (i as int) >= p {
                        assert(v[p as int].time <= v[i as int].time);
                    }
                },
                None => {
                    if p > 0 {
                        assert(v[p - 1].time <= gap_time);
                    }
                },
            }
            assert(prev == (if p > 0 { Some((p - 1) as usize) } else { None::<usize> }));
        }
        let start = self.truck_data[truck].starting_terminal;
        let prev_terminal = match prev {
            Some(i) => cps[i].terminal,
            None => start,
        };
        proof {
            if p > 0 {
                assert(self.checkpoint_ok(self.trucks()[truck as int], v, p - 1));
            }
            if p < len {
                assert(self.checkpoint_ok(self.trucks()[truck as int], v, p as int));
            }
            assert(v.len() == len);
        }

        // Terminals that some unscheduled cargo could leave from or go to here.
        let n_terminals = self.terminal_active.len();
        let mut possible: Vec<bool> = Vec::new();
        let mut x: usize = 0;
        while x < n_terminals
            invariant
                possible@.len() == x,
                x <= n_terminals,
                forall|y: int| 0 <= y < x ==> !possible@[y],
            decreases n_terminals - x,
        {
            possible.push(false);
            x = x + 1;
        }
        let n_cargo = self.cargo_booking_info.len();
        let mut c: usize = 0;
        while c < n_cargo
            invariant
                self.wf(),
                n_cargo == self.bookings().len(),
                n_terminals == self.active().len(),
                possible@.len() == n_terminals,
                c <= n_cargo,
                forall|y: int| 0 <= y < n_terminals && #[trigger] possible@[y] ==> self.is_terminal(Terminal(y as usize))
                    && Terminal(y as usize) != prev_terminal && (next matches Some(j) ==> Terminal(y as usize) != v[j as int].terminal)
                    && self.terminal_of_unscheduled(schedule@, y),
                schedule.scheduled_cargo_truck@.len() == n_cargo,
                schedule.scheduled_cargo_truck@ == schedule@.cargo_truck,
                cps@.len() == len,
                v == cps_view(cps@),
                next matches Some(j) ==> j < len,
            decreases n_cargo - c,
        {
            proof {
                if let Some(j) = next {
                    assert(v[j as int].terminal == cps@[j as int].terminal);
                }
            }
            if schedule.scheduled_cargo_truck[c].is_none() {
                let info = self.cargo_booking_info[c];
                proof {
                    assert(self.is_terminal(self.bookings()[c as int].from));
                }
                let from_ok = info.from != prev_terminal && match next {
                    Some(j) => info.from != cps[j].terminal,
                    None => true,
                };
                proof {
                    assert(self.terminal_of_unscheduled(schedule@, info.from.0 as int));
                    assert(self.terminal_of_unscheduled(schedule@, info.to.0 as int));
                }
                if from_ok {
                    possible[info.from.0] = true;
                }
                let to_ok = info.to != prev_terminal && match next {
                    Some(j) => info.to != cps[j].terminal,
                    None => true,
                };
                if to_ok {
                    // Only go to `to` if this truck has been at `from` before:
                    // it starts there, or an earlier checkpoint stands there.
                    let mut k: usize = 0;
                    let mut visited = start.0 == info.from.0;
                    while k < len && cps[k].terminal.0 != info.from.0
                        invariant
                            k <= len,
                            cps@.len() == len,
                        decreases len - k,
                    {
                        k = k + 1;
                    }
                    if k < len && cps[k].time < gap_time {
                        visited = true;
                    }
                    if visited {
                        possible[info.to.0] = true;
                    }
                }
            }
            c = c + 1;
        }
        let mut candidates: Vec<Terminal> = Vec::new();
        let mut y: usize = 0;
        while y < n_terminals
            invariant
                y <= n_terminals,
                possible@.len() == n_terminals,
                forall|z: int| 0 <= z < n_terminals && #[trigger] possible@[z] ==> self.is_terminal(Terminal(z as usize))
                    && Terminal(z as usize) != prev_terminal && (next matches Some(j) ==> Terminal(z as usize) != v[j as int].terminal)
                    && self.terminal_of_unscheduled(schedule@, z),
                forall|m: int| 0 <= m < candidates@.len() ==> self.is_terminal(#[trigger] candidates@[m])
                    && candidates@[m] != prev_terminal && (next matches Some(j) ==> candidates@[m] != v[j as int].terminal)
                    && self.terminal_of_unscheduled(schedule@, candidates@[m].0 as int),
            decreases n_terminals - y,
        {
            if possible[y] {
                candidates.push(Terminal(y));
            }
            y = y + 1;
        }
        if candidates.len() == 0 {
            return None;
        }
        let new_terminal = candidates[random_index(rng, candidates.len())];
        proof {
            if let Some(i) = prev {
                assert(self.checkpoint_ok(self.trucks()[truck as int], v, i as int));
            }
            if let Some(j) = next {
                assert(self.checkpoint_ok(self.trucks()[truck as int], v, j as int));
            }
        }
        let allowed = match self.get_driving_time_constraints(start, cps, prev, next, new_terminal) {
            Some(iv) => iv,
            None => return None,
        };
        // Draw strictly after the previous checkpoint.
        let earliest = match prev {
            Some(i) => if cps[i].time < allowed.get_start_time() {
                allowed.get_start_time()
            } else {
                cps[i].time + 1
            },
            None => allowed.get_start_time(),
        };
        let new_time = match choose_in_range(rng, earliest, allowed.get_end_time()) {
            Some(t) => t,
            None => return None,
        };
        let (available_teu, available_weight_kg) = match prev {
            Some(i) => (cps[i].available_teu, cps[i].available_weight_kg),
            None => (self.truck_data[truck].max_teu, self.truck_data[truck].max_weight_kg),
        };
        let checkpoint = Checkpoint {
            time: new_time,
            terminal: new_terminal,
            pickup_cargo: Vec::new(),
            dropoff_cargo: Vec::new(),
            available_teu,
            available_weight_kg,
        };
        let ghost xm = checkpoint@;
        proof {
            assert(prev_terminal == crate::schedule::prev_terminal(start, v, p as int));
            self.lemma_insert_wf(truck as int, v, p as int, xm);
        }

        // Replace driving A -> C by A -> B -> C.
        let old_driving = schedule.truck_driving_times[truck];
        let a_to_b = self.drive_between(prev_terminal, new_terminal);
        let (a_to_c, b_to_c) = match next {
            Some(j) => (self.drive_between(prev_terminal, cps[j].terminal), self.drive_between(new_terminal, cps[j].terminal)),
            None => (0, 0),
        };
        let ghost ns = v.insert(p as int, xm);
        proof {
            if p < len {
                self.lemma_legs_insert(start, v, p as int, xm, len as int);
            } else {
                assert(v.insert(p as int, xm) == v.push(xm));
                self.lemma_legs_append(start, v, xm);
            }
            self.lemma_legs_bound(truck as int, ns, ns.len() as int);
            assert(self.checkpoint_ok(self.trucks()[truck as int], ns, ns.len() - 1));
        }
        let new_driving_wide: u128 = old_driving as u128 + a_to_b as u128 + b_to_c as u128 - a_to_c as u128;
        let new_driving = new_driving_wide as u64;

        let mut new_cps = copy_checkpoints(cps);
        new_cps.insert(p, checkpoint);
        let mut out = schedule.duplicate();
        out.truck_checkpoints[truck] = new_cps;
        out.truck_driving_times[truck] = new_driving;
        proof {
            out.lemma_view();
            schedule.lemma_view();
            assert(cps_view(new_cps@) =~= ns);
            assert(out@.checkpoints =~= schedule@.checkpoints.update(truck as int, ns));
            assert forall|u: int| 0 <= u < self.trucks().len() implies self.truck_wf(u, #[trigger] out@.checkpoints[u]) by {
                if u != truck {
                    assert(out@.checkpoints[u] == schedule@.checkpoints[u]);
                }
            }
            assert forall|u: int| 0 <= u < self.trucks().len() implies #[trigger] out@.driving_times[u] == self.legs(
                self.trucks()[u].starting_terminal,
                out@.checkpoints[u],
                out@.checkpoints[u].len() as int,
            ) by {
                if u != truck {
                    assert(out@.checkpoints[u] == schedule@.checkpoints[u]);
                }
            }
        }
        proof {
            assert(out@.cargo_truck == schedule@.cargo_truck);
            assert forall|c: int| 0 <= c < self.bookings().len() implies #[trigger] self.cargo_ok(out@, c) by {
                assert(self.cargo_ok(schedule@, c));
                self.lemma_cargo_insert(schedule@, out@, truck as int, p as int, xm, c);
            }
        }
        proof {
            assert(checkpoint_inserted(schedule@, out@, truck as int, p as int, xm));
            assert(schedule@.checkpoints[truck as int] == v);
            assert(self.added_checkpoint_fits(schedule@, truck as int, p as int, xm));
            assert(self.some_fitting_checkpoint_inserted(schedule@, out@));
            assert(some_checkpoint_inserted(schedule@, out@));
        }
        proof {
            let s0 = schedule@;
            let s1 = out@;
            let n = self.bookings().len() as int;
            let tr = truck as int;
            let pp = p as int;
            assert(s0.checkpoints[tr] == v);
            assert forall|t: int, k: int| 0 <= t < s1.checkpoints.len() && 0 <= k < s1.checkpoints[t].len() implies {
                &&& (#[trigger] s1.checkpoints[t][k]).available_teu + self.load_teu(s1, t, k, n) == self.trucks()[t].max_teu
                &&& s1.checkpoints[t][k].available_weight_kg + self.load_weight(s1, t, k, n) == self.trucks()[t].max_weight_kg
            } by {
                if t != tr || k < pp {
                    assert forall|c: int| 0 <= c < n implies (#[trigger] carried(s0, c, t, k) <==> carried(s1, c, t, k)) by {
                        lemma_carried_insert(s0, s1, tr, pp, xm, c, t, k);
                    }
                    self.lemma_load_eq(s0, t, k, s1, t, k, n);
                    assert(s0.checkpoints[t][k] == s1.checkpoints[t][k]);
                } else if k > pp {
                    assert forall|c: int| 0 <= c < n implies (#[trigger] carried(s0, c, t, k - 1) <==> carried(s1, c, t, k)) by {
                        lemma_carried_insert(s0, s1, tr, pp, xm, c, t, k - 1);
                    }
                    self.lemma_load_eq(s0, t, k - 1, s1, t, k, n);
                    assert(s0.checkpoints[t][k - 1] == s1.checkpoints[t][k]);
                } else {
                    assert(s1.checkpoints[t][k] == xm);
                    if pp > 0 {
                        assert forall|c: int| 0 <= c < n implies (#[trigger] carried(s0, c, t, pp - 1) <==> carried(s1, c, t, pp)) by {
                            lemma_carried_insert(s0, s1, tr, pp, xm, c, t, pp);
                        }
                        self.lemma_load_eq(s0, t, pp - 1, s1, t, pp, n);
                        assert(s0.checkpoints[t][pp - 1] == v[pp - 1]);
                    } else {
                        assert forall|c: int| 0 <= c < n implies !(#[trigger] carried(s1, c, t, 0)) by {
                            lemma_carried_insert(s0, s1, tr, pp, xm, c, t, 0);
                        }
                        self.lemma_load_zero(s1, t, 0, n);
                    }
                }
            }
            assert(self.loads_ok(s1));
        }
        Some(out)
    }
}

/// Removes the first occurrence of `c`, if any.
fn remove_cargo(v: &mut Vec<Cargo>, c: Cargo) -> (r: bool)
    ensures
        r <==> old(v)@.contains(c),
        r ==> exists|i: int| 0 <= i < old(v)@.len() && old(v)@[i] == c && final(v)@ == old(v)@.remove(i)
            && forall|m: int| 0 <= m < i ==> old(v)@[m] != c,
        !r ==> final(v)@ == old(v)@,
        final(v)@.len() <= old(v)@.len(),
        forall|m: int| 0 <= m < final(v)@.len() ==> #[trigger] final(v)@[m] == old(v)@[m] || (m + 1 < old(v)@.len()
            && final(v)@[m] == old(v)@[m + 1]),
{
    let n = v.len();
    let mut i: usize = 0;
    while i < n
        invariant
            n == v@.len(),
            v@ == old(v)@,
            i <= n,
            forall|m: int| 0 <= m < i ==> v@[m] != c,
        decreases n - i,
    {
        if v[i].0 == c.0 {
            v.remove(i);
            return true;
        }
        i = i + 1;
    }
    false
}

/// Number of checkpoints of the first `n` trucks.
pub open spec fn count_checkpoints(cps: Seq<Seq<CheckpointModel>>, n: int) -> int
    decreases n,
{
    if n <= 0 {
        0
    } else {
        count_checkpoints(cps, n - 1) + cps[n - 1].len()
    }
}

proof fn lemma_count_monotone(cps: Seq<Seq<CheckpointModel>>, a: int, b: int)
    requires
        0 <= a <= b,
    ensures
        count_checkpoints(cps, a) <= count_checkpoints(cps, b),
    decreases b - a,
{
    if a < b {
        lemma_count_monotone(cps, a, b - 1);
    }
}

impl ScheduleProblem {
    /// Replacing checkpoint `k` by one at the same terminal whose time still
    /// fits between its neighbours keeps a truck valid and its legs unchanged.
    proof fn lemma_replace_wf(&self, t: int, cps: Seq<CheckpointModel>, k: int, x: CheckpointModel)
        requires
            self.truck_wf(t, cps),
            0 <= k < cps.len(),
            ({
                let td = self.trucks()[t];
                let start = td.starting_terminal;
                &&& x.terminal == cps[k].terminal
                &&& self.prev_time(cps, k) + self.drive(prev_terminal(start, cps, k), x.terminal) <= x.time
                &&& (k > 0 ==> cps[k - 1].time < x.time)
                &&& x.time < self.period().end()
                &&& x.available_teu <= td.max_teu
                &&& x.available_weight_kg <= td.max_weight_kg
                &&& forall|m: int| 0 <= m < x.pickup_cargo.len() ==> (#[trigger] x.pickup_cargo[m]).0 < self.bookings().len()
                &&& forall|m: int| 0 <= m < x.dropoff_cargo.len() ==> (#[trigger] x.dropoff_cargo[m]).0 < self.bookings().len()
                &&& x.pickup_cargo.no_duplicates()
                &&& x.dropoff_cargo.no_duplicates()
                &&& k + 1 < cps.len() ==> x.time < cps[k + 1].time && x.time + self.drive(x.terminal, cps[k + 1].terminal)
                    <= cps[k + 1].time
            }),
        ensures
            self.truck_wf(t, cps.update(k, x)),
            self.legs(self.trucks()[t].starting_terminal, cps.update(k, x), cps.len() as int) == self.legs(
                self.trucks()[t].starting_terminal,
                cps,
                cps.len() as int,
            ),
    {
        let ns = cps.update(k, x);
        let td = self.trucks()[t];
        assert forall|m: int| 0 <= m < ns.len() implies #[trigger] self.checkpoint_ok(td, ns, m) by {
            assert(self.checkpoint_ok(td, cps, m));
            if m > 0 {
                assert(self.checkpoint_ok(td, cps, m - 1));
            }
        }
        assert forall|m: int| 0 <= m < cps.len() implies (#[trigger] ns[m]).terminal == cps[m].terminal by {}
        self.lemma_legs_prefix(td.starting_terminal, ns, cps, cps.len() as int);
    }

    /// Removing checkpoint `k`, when its successor can be reached in time from
    /// its predecessor, keeps a truck valid.
    proof fn lemma_remove_wf(&self, t: int, cps: Seq<CheckpointModel>, k: int)
        requires
            self.truck_wf(t, cps),
            0 <= k < cps.len(),
            ({
                let start = self.trucks()[t].starting_terminal;
                k + 1 < cps.len() ==> cps[k + 1].terminal != prev_terminal(start, cps, k) && self.prev_time(cps, k)
                    + self.drive(prev_terminal(start, cps, k), cps[k + 1].terminal) <= cps[k + 1].time
            }),
        ensures
            self.truck_wf(t, cps.remove(k)),
    {
        let ns = cps.remove(k);
        let td = self.trucks()[t];
        self.lemma_sorted(t, cps);
        assert forall|m: int| 0 <= m < ns.len() implies #[trigger] self.checkpoint_ok(td, ns, m) by {
            if m < k {
                assert(self.checkpoint_ok(td, cps, m));
                assert(ns[m] == cps[m]);
                if m > 0 {
                    assert(ns[m - 1] == cps[m - 1]);
                }
            } else if m == k {
                assert(self.checkpoint_ok(td, cps, k + 1));
                assert(ns[m] == cps[k + 1]);
                if k > 0 {
                    assert(ns[m - 1] == cps[k - 1]);
                    assert(cps[k - 1].time < cps[k + 1].time);
                }
            } else {
                assert(self.checkpoint_ok(td, cps, m + 1));
                assert(ns[m] == cps[m + 1]);
                assert(ns[m - 1] == cps[m]);
            }
        }
    }

    /// A checkpoint drawn uniformly over all checkpoints of all trucks, as
    /// (truck, index); none when there is none.
    fn get_random_checkpoint(&self, rng: &mut Xoshiro256PlusPlus, schedule: &Schedule) -> (r: Option<(usize, usize)>)
        requires
            self.schedule_wf(schedule@),
        ensures
            r matches Some((t, k)) ==> t < schedule@.checkpoints.len() && k < schedule@.checkpoints[t as int].len(),
            count_checkpoints(schedule@.checkpoints, schedule@.checkpoints.len() as int) <= usize::MAX ==> (r is Some
                <==> count_checkpoints(schedule@.checkpoints, schedule@.checkpoints.len() as int) > 0),
    {
        proof {
            schedule.lemma_view();
        }
        let ghost cs = schedule@.checkpoints;
        let n = schedule.truck_checkpoints.len();
        let mut total: usize = 0;
        let mut t: usize = 0;
        while t < n
            invariant
                n == schedule.truck_checkpoints@.len(),
                n == cs.len(),
                forall|u: int| 0 <= u < n ==> #[trigger] cs[u] == cps_view(schedule.truck_checkpoints@[u]@),
                t <= n,
                total == count_checkpoints(cs, t as int),
            decreases n - t,
        {
            proof {
                assert(cs[t as int].len() == schedule.truck_checkpoints@[t as int]@.len());
                lemma_count_monotone(cs, t + 1, n as int);
                assert(count_checkpoints(cs, t + 1) == count_checkpoints(cs, t as int) + cs[t as int].len());
            }
            let len = schedule.truck_checkpoints[t].len();
            total = match total.checked_add(len) {
                Some(x) => x,
                None => {
                    proof {
                        assert(cs[t as int].len() == len);
                        assert(count_checkpoints(cs, t + 1) > usize::MAX);
                        assert(cs == schedule@.checkpoints);
                        assert(count_checkpoints(schedule@.checkpoints, schedule@.checkpoints.len() as int) > usize::MAX);
                    }
                    return None;
                },
            };
            t = t + 1;
        }
        if total == 0 {
            return None;
        }
        let index0 = random_index(rng, total);
        let mut index = index0;
        let mut u: usize = 0;
        while u < n
            invariant
                n == schedule.truck_checkpoints@.len(),
                n == cs.len(),
                forall|x: int| 0 <= x < n ==> #[trigger] cs[x] == cps_view(schedule.truck_checkpoints@[x]@),
                u <= n,
                index0 < total,
                total == count_checkpoints(cs, n as int),
                index == index0 - count_checkpoints(cs, u as int),
            decreases n - u,
        {
            proof {
                assert(cs[u as int].len() == schedule.truck_checkpoints@[u as int]@.len());
            }
            let len = schedule.truck_checkpoints[u].len();
            if index < len {
                proof {
                    assert(count_checkpoints(cs, n as int) > 0);
                    assert(cs == schedule@.checkpoints);
                }
                return Some((u, index));
            }
            proof {
                assert(count_checkpoints(cs, u + 1) == count_checkpoints(cs, u as int) + cs[u as int].len());
            }
            index = index - len;
            u = u + 1;
        }
        None
    }

    /// Checkpoint `k` of truck `t` can go: it has no pickup or dropoff, and its
    /// successor, if any, stands at another terminal than its predecessor (or
    /// the start) and can be reached from there in the time between them.
    pub open spec fn removable(&self, s: ScheduleModel, t: int, k: int) -> bool {
        let cps = s.checkpoints[t];
        let start = self.trucks()[t].starting_terminal;
        &&& cps[k].pickup_cargo.len() == 0
        &&& cps[k].dropoff_cargo.len() == 0
        &&& k + 1 < cps.len() ==> cps[k + 1].terminal != prev_terminal(start, cps, k) && self.prev_time(cps, k)
            + self.drive(prev_terminal(start, cps, k), cps[k + 1].terminal) <= cps[k + 1].time
    }

    /// Removes a checkpoint drawn uniformly over all checkpoints, with
    /// `remove_checkpoint_at`; it succeeds whenever every checkpoint can go
    /// and there is one.
    fn remove_random_checkpoint(&self, rng: &mut Xoshiro256PlusPlus, schedule: &Schedule) -> (r: Option<Schedule>)
        requires
            self.wf(),
            self.drive_complete(),
            self.schedule_wf(schedule@),
        ensures
            r matches Some(s) ==> self.schedule_wf(s@),
            r matches Some(s) ==> some_checkpoint_removed(schedule@, s@),
            ({
                let n = count_checkpoints(schedule@.checkpoints, schedule@.checkpoints.len() as int);
                0 < n <= usize::MAX && (forall|t: int, k: int| 0 <= t < schedule@.checkpoints.len() && 0 <= k
                    < schedule@.checkpoints[t].len() ==> #[trigger] self.removable(schedule@, t, k)) ==> r is Some
            }),
    {
        let (truck, k) = match self.get_random_checkpoint(rng, schedule) {
            Some(x) => x,
            None => return None,
        };
        let r = self.remove_checkpoint_at(schedule, truck, k);
        proof {
            if r is Some {
                assert(checkpoint_removed(schedule@, r.unwrap()@, truck as int, k as int));
            }
        }
        r
    }

    /// Removes checkpoint `k` of `truck` when it can go, replacing the legs
    /// around it by the direct one in the cached driving time.
    #[verifier::rlimit(100)]
    pub fn remove_checkpoint_at(&self, schedule: &Schedule, truck: usize, k: usize) -> (r: Option<Schedule>)
        requires
            self.wf(),
            self.drive_complete(),
            self.schedule_wf(schedule@),
            truck < schedule@.checkpoints.len(),
            k < schedule@.checkpoints[truck as int].len(),
        ensures
            r is Some <==> self.removable(schedule@, truck as int, k as int),
            r matches Some(s) ==> self.schedule_wf(s@),
            r matches Some(s) ==> checkpoint_removed(schedule@, s@, truck as int, k as int),
    {
        proof {
            schedule.lemma_view();
        }
        let cps = &schedule.truck_checkpoints[truck];
        let ghost v = cps_view(cps@);
        let len = cps.len();
        proof {
            schedule.lemma_view();
            assert(schedule@.checkpoints[truck as int] == v);
            assert(self.truck_wf(truck as int, v));
            self.lemma_sorted(truck as int, v);
            assert(v[k as int] == cps@[k as int]@);
        }
        if cps[k].pickup_cargo.len() > 0 || cps[k].dropoff_cargo.len() > 0 {
            return None;
        }
        let (prev, next) = schedule.get_prev_and_next_checkpoints(Truck(truck), &cps[k]);
        proof {
            match prev {
                Some(i) => {
                    if (i as int) < k - 1 {
                        assert(v[k - 1].time < v[k as int].time);
                    }
                    if (i as int) >= k {
                        assert(v[k as int].time <= v[i as int].time);
                    }
                },
                None => {
                    if k > 0 {
                        assert(v[k - 1].time < v[k as int].time);
                    }
                },
            }
            match next {
                Some(j) => {
                    if (j as int) <= k {
                        assert(v[j as int].time <= v[k as int].time);
                    }
                    if (j as int) > k + 1 {
                        assert(v[k as int].time < v[k + 1].time);
                    }
                },
                None => {
                    if k + 1 < len {
                        assert(v[k as int].time < v[k + 1].time);
                    }
                },
            }
            assert(prev == (if k > 0 { Some((k - 1) as usize) } else { None::<usize> }));
            assert(next == (if k + 1 < len { Some((k + 1) as usize) } else { None::<usize> }));
        }
        let start = self.truck_data[truck].starting_terminal;
        let (prev_terminal, prev_time) = match prev {
            Some(i) => (cps[i].terminal, cps[i].time),
            None => (start, self.planning_period.get_start_time()),
        };
        let terminal = cps[k].terminal;
        proof {
            assert(self.checkpoint_ok(self.trucks()[truck as int], v, k as int));
            if let Some(j) = next {
                assert(self.checkpoint_ok(self.trucks()[truck as int], v, j as int));
            }
            if let Some(i) = prev {
                assert(self.checkpoint_ok(self.trucks()[truck as int], v, i as int));
            }
        }
        let a_to_b = self.drive_between(prev_terminal, terminal);
        let (a_to_c, b_to_c) = match next {
            Some(j) => {
                if cps[j].terminal.0 == prev_terminal.0 {
                    return None;
                }
                let a_to_c = self.drive_between(prev_terminal, cps[j].terminal);
                if prev_time as u128 + a_to_c as u128 > cps[j].time as u128 {
                    return None;
                }
                (a_to_c, self.drive_between(terminal, cps[j].terminal))
            },
            None => (0, 0),
        };
        let ghost ns = v.remove(k as int);
        proof {
            assert(prev_terminal == crate::schedule::prev_terminal(start, v, k as int));
            self.lemma_remove_wf(truck as int, v, k as int);
            assert(v == ns.insert(k as int, v[k as int]));
            assert(crate::schedule::prev_terminal(start, ns, k as int) == prev_terminal);
            if k + 1 < len {
                self.lemma_legs_insert(start, ns, k as int, v[k as int], ns.len() as int);
            } else {
                assert(ns.insert(k as int, v[k as int]) == ns.push(v[k as int]));
                self.lemma_legs_append(start, ns, v[k as int]);
            }
            self.lemma_legs_bound(truck as int, ns, ns.len() as int);
            if ns.len() > 0 {
                assert(self.checkpoint_ok(self.trucks()[truck as int], ns, ns.len() - 1));
            }
        }
        let old_driving = schedule.truck_driving_times[truck];
        let new_driving_wide: u128 = old_driving as u128 + a_to_c as u128 - a_to_b as u128 - b_to_c as u128;
        let new_driving = new_driving_wide as u64;
        let mut new_cps = copy_checkpoints(cps);
        new_cps.remove(k);
        let mut out = schedule.duplicate();
        out.truck_checkpoints[truck] = new_cps;
        out.truck_driving_times[truck] = new_driving;
        proof {
            out.lemma_view();
            assert(cps_view(new_cps@) =~= ns);
            assert(out@.checkpoints =~= schedule@.checkpoints.update(truck as int, ns));
            assert forall|u: int| 0 <= u < self.trucks().len() implies self.truck_wf(u, #[trigger] out@.checkpoints[u]) by {
                if u != truck {
                    assert(out@.checkpoints[u] == schedule@.checkpoints[u]);
                }
            }
            assert forall|u: int| 0 <= u < self.trucks().len() implies #[trigger] out@.driving_times[u] == self.legs(
                self.trucks()[u].starting_terminal,
                out@.checkpoints[u],
                out@.checkpoints[u].len() as int,
            ) by {
                if u != truck {
                    assert(out@.checkpoints[u] == schedule@.checkpoints[u]);
                }
            }
        }
        proof {
            assert(out@.cargo_truck == schedule@.cargo_truck);
            assert(v[k as int].pickup_cargo.len() == 0 && v[k as int].dropoff_cargo.len() == 0);
            assert(schedule@.checkpoints =~= out@.checkpoints.update(truck as int, ns.insert(k as int, v[k as int])));
            assert forall|c: int| 0 <= c < self.bookings().len() implies #[trigger] self.cargo_ok(out@, c) by {
                assert(self.cargo_ok(schedule@, c));
                self.lemma_cargo_insert(out@, schedule@, truck as int, k as int, v[k as int], c);
            }
        }
        proof {
            assert(out@.checkpoints =~= schedule@.checkpoints.update(truck as int, schedule@.checkpoints[truck as int].remove(k as int)));
            assert(checkpoint_removed(schedule@, out@, truck as int, k as int));
            assert(some_checkpoint_removed(schedule@, out@));
        }
        proof {
            let s0 = schedule@;
            let s1 = out@;
            let n = self.bookings().len() as int;
            let tr = truck as int;
            let kk = k as int;
            assert(s0.checkpoints == s1.checkpoints.update(tr, s1.checkpoints[tr].insert(kk, v[kk])));
            assert forall|t: int, m: int| 0 <= t < s1.checkpoints.len() && 0 <= m < s1.checkpoints[t].len() implies {
                &&& (#[trigger] s1.checkpoints[t][m]).available_teu + self.load_teu(s1, t, m, n) == self.trucks()[t].max_teu
                &&& s1.checkpoints[t][m].available_weight_kg + self.load_weight(s1, t, m, n) == self.trucks()[t].max_weight_kg
            } by {
                let m0 = shifted(tr, kk, t, m);
                assert forall|c: int| 0 <= c < n implies (#[trigger] carried(s1, c, t, m) <==> carried(s0, c, t, m0)) by {
                    lemma_carried_insert(s1, s0, tr, kk, v[kk], c, t, m);
                }
                self.lemma_load_eq(s1, t, m, s0, t, m0, n);
                assert(s0.checkpoints[t][m0] == s1.checkpoints[t][m]);
            }
            assert(self.loads_ok(s1));
        }
        Some(out)
    }
}

impl ScheduleProblem {
    /// Time `t` suits checkpoint `k` of `v`, on a truck starting at `start`, with
    /// `pickup` and `dropoff` as its cargo: after its predecessor, leaving time
    /// to drive in from it and out to its successor, inside the planning period
    /// and inside every pickup window of `pickup` and dropoff window of `dropoff`.
    pub open spec fn reschedule_ok(
        &self,
        start: Terminal,
        v: Seq<CheckpointModel>,
        k: int,
        pickup: Seq<Cargo>,
        dropoff: Seq<Cargo>,
        t: int,
    ) -> bool {
        let prev = if k > 0 { Some((k - 1) as usize) } else { None };
        let next = if k + 1 < v.len() { Some((k + 1) as usize) } else { None };
        &&& self.gap_prev_time(v, prev) + self.drive(gap_prev_terminal(start, v, prev), v[k].terminal) <= t
        &&& t < self.gap_next_time(v, next) - self.gap_next_drive(v, next, v[k].terminal)
        &&& (k > 0 ==> v[k - 1].time < t)
        &&& self.period().contains(t)
        &&& forall|m: int| 0 <= m < pickup.len() ==> self.pickup_windows()[(#[trigger] pickup[m]).0 as int].contains(t)
        &&& forall|m: int| 0 <= m < dropoff.len() ==> self.dropoff_windows()[(#[trigger] dropoff[m]).0 as int].contains(t)
    }

    /// A random time to which checkpoint `k` of a truck starting at `start` can
    /// move, with `new_pickup` and `new_dropoff` as its cargo: inside every
    /// pickup window of the one and every dropoff window of the other, inside
    /// the planning period, after its predecessor, and leaving time to drive in
    /// from its predecessor and out to its successor. The relative order of the
    /// checkpoints is kept.
    fn find_random_reschedule_time(
        &self,
        rng: &mut Xoshiro256PlusPlus,
        start: Terminal,
        cps: &Vec<Checkpoint>,
        k: usize,
        new_pickup: &Vec<Cargo>,
        new_dropoff: &Vec<Cargo>,
    ) -> (r: Option<Time>)
        requires
            self.wf(),
            self.drive_complete(),
            self.is_terminal(start),
            k < cps@.len(),
            forall|m: int| 0 <= m < cps@.len() ==> self.is_terminal(#[trigger] cps@[m].terminal),
            forall|m: int| 0 <= m < new_pickup@.len() ==> (#[trigger] new_pickup@[m]).0 < self.bookings().len(),
            forall|m: int| 0 <= m < new_dropoff@.len() ==> (#[trigger] new_dropoff@[m]).0 < self.bookings().len(),
        ensures
            r matches Some(t) ==> {
                let v = cps_view(cps@);
                &&& self.prev_time(v, k as int) + self.drive(prev_terminal(start, v, k as int), v[k as int].terminal) <= t
                &&& (k > 0 ==> v[k - 1].time < t)
                &&& self.period().contains(t as int)
                &&& (k + 1 < v.len() ==> t < v[k + 1].time && t + self.drive(v[k as int].terminal, v[k + 1].terminal)
                    <= v[k + 1].time)
                &&& forall|m: int| 0 <= m < new_pickup@.len() ==> self.pickup_windows()[(
                    #[trigger] new_pickup@[m]).0 as int].contains(t as int)
                &&& forall|m: int| 0 <= m < new_dropoff@.len() ==> self.dropoff_windows()[(
                    #[trigger] new_dropoff@[m]).0 as int].contains(t as int)
            },
            r matches Some(t) ==> self.reschedule_ok(start, cps_view(cps@), k as int, new_pickup@, new_dropoff@, t as int),
            r is None <==> forall|t: int| !#[trigger] self.reschedule_ok(start, cps_view(cps@), k as int, new_pickup@, new_dropoff@, t),
    {
        let ghost v = cps_view(cps@);
        let mut pickup_chains: Vec<IntervalChain> = Vec::new();
        let mut m: usize = 0;
        while m < new_pickup.len()
            invariant
                self.wf(),
                m <= new_pickup@.len(),
                pickup_chains@.len() == m,
                forall|x: int| 0 <= x < new_pickup@.len() ==> (#[trigger] new_pickup@[x]).0 < self.bookings().len(),
                forall|x: int| 0 <= x < m ==> (#[trigger] pickup_chains@[x])@ == self.pickup_windows()[new_pickup@[x].0 as int]@,
                forall|x: int| 0 <= x < m ==> (#[trigger] pickup_chains@[x]).wf(),
            decreases new_pickup@.len() - m,
        {
            let c = new_pickup[m].0;
            proof {
                assert(self.pickup_windows()[c as int].wf());
            }
            pickup_chains.push(self.pickup_times[c].duplicate());
            m = m + 1;
        }
        let mut dropoff_chains: Vec<IntervalChain> = Vec::new();
        let mut m: usize = 0;
        while m < new_dropoff.len()
            invariant
                self.wf(),
                m <= new_dropoff@.len(),
                dropoff_chains@.len() == m,
                forall|x: int| 0 <= x < new_dropoff@.len() ==> (#[trigger] new_dropoff@[x]).0 < self.bookings().len(),
                forall|x: int| 0 <= x < m ==> (#[trigger] dropoff_chains@[x])@ == self.dropoff_windows()[new_dropoff@[x].0 as int]@,
                forall|x: int| 0 <= x < m ==> (#[trigger] dropoff_chains@[x]).wf(),
            decreases new_dropoff@.len() - m,
        {
            let c = new_dropoff[m].0;
            proof {
                assert(self.dropoff_windows()[c as int].wf());
            }
            dropoff_chains.push(self.dropoff_times[c].duplicate());
            m = m + 1;
        }
        let pickup_allowed = intersect_all(&pickup_chains);
        let dropoff_allowed = intersect_all(&dropoff_chains);
        let len = cps.len();
        let prev: Option<usize> = if k > 0 { Some(k - 1) } else { None };
        let next: Option<usize> = if k + 1 < len { Some(k + 1) } else { None };
        proof {
            assert(self.is_terminal(cps@[k as int].terminal));
            if k > 0 {
                assert(self.is_terminal(cps@[k - 1].terminal));
                assert(v[k - 1] == cps@[k - 1]@);
            }
            if k + 1 < len {
                assert(self.is_terminal(cps@[k + 1].terminal));
                assert(v[k + 1] == cps@[k + 1]@);
            }
            assert(v[k as int] == cps@[k as int]@);
        }
        let driving = match self.get_driving_time_constraints(start, cps, prev, next, cps[k].terminal) {
            Some(iv) => iv,
            None => {
                return None;
            },
        };
        // Strictly after the predecessor.
        let lower = if k > 0 {
            match cps[k - 1].time.checked_add(1) {
                Some(x) => x,
                None => {
                    return None;
                },
            }
        } else {
            0
        };
        let after = match Interval::new(lower, u64::MAX, ()) {
            Some(iv) => iv,
            None => {
                return None;
            },
        };
        let mut chains: Vec<IntervalChain> = Vec::new();
        chains.push(pickup_allowed);
        chains.push(dropoff_allowed);
        chains.push(IntervalWithDataChain::from_interval(driving));
        chains.push(IntervalWithDataChain::from_interval(self.planning_period));
        chains.push(IntervalWithDataChain::from_interval(after));
        let allowed = intersect_all(&chains);
        proof {
            assert forall|t: int| allowed.contains(t) <==> self.reschedule_ok(start, v, k as int, new_pickup@, new_dropoff@, t) by {
                lemma_single_chain(chains@[2], t);
                lemma_single_chain(chains@[3], t);
                lemma_single_chain(chains@[4], t);
                if self.reschedule_ok(start, v, k as int, new_pickup@, new_dropoff@, t) {
                    assert forall|x: int| 0 <= x < pickup_chains@.len() implies (#[trigger] pickup_chains@[x]).contains(t) by {
                        assert(self.pickup_windows()[new_pickup@[x].0 as int].contains(t));
                    }
                    assert forall|x: int| 0 <= x < dropoff_chains@.len() implies (#[trigger] dropoff_chains@[x]).contains(t) by {
                        assert(self.dropoff_windows()[new_dropoff@[x].0 as int].contains(t));
                    }
                    assert forall|x: int| 0 <= x < chains@.len() implies (#[trigger] chains@[x]).contains(t) by {}
                }
                if allowed.contains(t) {
                    assert(chains@[0].contains(t));
                    assert(chains@[1].contains(t));
                    assert(chains@[2].contains(t));
                    assert(chains@[3].contains(t));
                    assert(chains@[4].contains(t));
                    assert forall|x: int| 0 <= x < new_pickup@.len() implies self.pickup_windows()[(
                        #[trigger] new_pickup@[x]).0 as int].contains(t) by {
                        assert(pickup_chains@[x].contains(t));
                    }
                    assert forall|x: int| 0 <= x < new_dropoff@.len() implies self.dropoff_windows()[(
                        #[trigger] new_dropoff@[x]).0 as int].contains(t) by {
                        assert(dropoff_chains@[x].contains(t));
                    }
                }
            }
        }
        let intervals = allowed.get_intervals();
        if intervals.len() == 0 {
            proof {
                assert forall|t: int| !#[trigger] self.reschedule_ok(start, v, k as int, new_pickup@, new_dropoff@, t) by {
                    if allowed.contains(t) {
                        let x = choose|x: int| 0 <= x < allowed@.len() && (#[trigger] allowed@[x]).contains(t);
                    }
                }
            }
            return None;
        }
        let chosen = intervals[random_index(rng, intervals.len())];
        proof {
            let i = choose|i: int| 0 <= i < intervals@.len() && intervals@[i] == chosen;
            assert(allowed@[i].wf());
        }
        let t = match choose_in_range(rng, chosen.get_start_time(), chosen.get_end_time()) {
            Some(t) => t,
            None => {
                return unreached();
            },
        };
        proof {
            let i = choose|i: int| 0 <= i < intervals@.len() && intervals@[i] == chosen;
            assert(allowed@[i].contains(t as int));
            assert(allowed.contains(t as int));
        }
        Some(t)
    }
}

fn copy_pairs(v: &Vec<(usize, usize)>) -> (r: Vec<(usize, usize)>)
    ensures
        r@ == v@,
{
    let mut r: Vec<(usize, usize)> = Vec::new();
    let mut i: usize = 0;
    while i < v.len()
        invariant
            i <= v@.len(),
            r@ == v@.take(i as int),
        decreases v@.len() - i,
    {
        r.push(v[i]);
        i = i + 1;
        proof {
            assert(v@.take(i as int) == v@.take(i - 1).push(v@[i - 1]));
        }
    }
    proof {
        assert(v@.take(v@.len() as int) == v@);
    }
    r
}

/// Checkpoints `p.0 < p.1` of `v` stand at the pickup and dropoff terminals of `info`.
pub open spec fn pair_fits(v: Seq<CheckpointModel>, info: BookingInformation, p: (usize, usize)) -> bool {
    &&& p.0 < p.1
    &&& p.1 < v.len()
    &&& v[p.0 as int].terminal == info.from
    &&& v[p.1 as int].terminal == info.to
}

proof fn lemma_push_no_duplicates(s: Seq<Cargo>, c: Cargo)
    requires
        s.no_duplicates(),
        !s.contains(c),
    ensures
        s.push(c).no_duplicates(),
{
    let t = s.push(c);
    assert forall|a: int, b: int| 0 <= a < t.len() && 0 <= b < t.len() && a != b implies t[a] != t[b] by {
        if a < s.len() && b < s.len() {
            assert(t[a] == s[a] && t[b] == s[b]);
        } else if a < s.len() {
            assert(t[a] == s[a]);
        } else if b < s.len() {
            assert(t[b] == s[b]);
        }
    }
}

impl ScheduleProblem {
    /// Adds the delivery of a random unscheduled cargo to a random truck, between
    /// a checkpoint at its pickup terminal and a later one at its dropoff
    /// terminal. Both checkpoints move, one after the other, to random times that
    /// suit all their cargo and their neighbours; the capacity in between shrinks
    /// by the cargo. None when no such pair exists, no time fits or the capacity
    /// runs out.
    #[verifier::rlimit(60)]
    fn add_random_delivery(&self, rng: &mut Xoshiro256PlusPlus, schedule: &Schedule) -> (r: Option<Schedule>)
        requires
            self.wf(),
            self.drive_complete(),
            self.schedule_wf(schedule@),
        ensures
            r matches Some(s) ==> self.schedule_wf(s@),
            r matches Some(s) ==> self.some_delivery_added(schedule@, s@),
    {
        let n_trucks = self.truck_data.len();
        if n_trucks == 0 {
            return None;
        }
        let truck = random_index(rng, n_trucks);
        let cps = &schedule.truck_checkpoints[truck];
        let ghost v = cps_view(cps@);
        let len = cps.len();
        let start = self.truck_data[truck].starting_terminal;
        let td = self.truck_data[truck];
        proof {
            schedule.lemma_view();
            assert(schedule@.checkpoints[truck as int] == v);
            assert(self.truck_wf(truck as int, v));
        }

        // Unscheduled cargo this truck could carry, each with its pairs of
        // (pickup, dropoff) checkpoint indices.
        let mut options: Vec<(Cargo, Vec<(usize, usize)>)> = Vec::new();
        let n_cargo = self.cargo_booking_info.len();
        let mut c: usize = 0;
        while c < n_cargo
            invariant
                n_cargo == self.bookings().len(),
                c <= n_cargo,
                len == cps@.len(),
                schedule.scheduled_cargo_truck@.len() == n_cargo,
                forall|o: int| 0 <= o < options@.len() ==> (#[trigger] options@[o]).0.0 < n_cargo
                    && options@[o].1@.len() > 0 && schedule@.cargo_truck[options@[o].0.0 as int].is_none()
                    && forall|q: int| 0 <= q < options@[o].1@.len()
                    ==> pair_fits(v, self.bookings()[options@[o].0.0 as int], #[trigger] options@[o].1@[q]),
                v == cps_view(cps@),
                schedule.scheduled_cargo_truck@ == schedule@.cargo_truck,
            decreases n_cargo - c,
        {
            if schedule.scheduled_cargo_truck[c].is_none() {
                let info = self.cargo_booking_info[c];
                let mut pairs: Vec<(usize, usize)> = Vec::new();
                let mut i: usize = 0;
                while i < len
                    invariant
                        i <= len,
                        len == cps@.len(),
                        v == cps_view(cps@),
                        forall|q: int| 0 <= q < pairs@.len() ==> pair_fits(v, info, #[trigger] pairs@[q]),
                    decreases len - i,
                {
                    proof {
                        assert(v[i as int].terminal == cps@[i as int].terminal);
                    }
                    if cps[i].terminal.0 == info.from.0 {
                        let mut j: usize = i + 1;
                        while j < len
                            invariant
                                i < j <= len,
                                len == cps@.len(),
                                v == cps_view(cps@),
                                v[i as int].terminal == info.from,
                                forall|q: int| 0 <= q < pairs@.len() ==> pair_fits(v, info, #[trigger] pairs@[q]),
                            decreases len - j,
                        {
                            proof {
                                assert(v[j as int].terminal == cps@[j as int].terminal);
                            }
                            if cps[j].terminal.0 == info.to.0 {
                                pairs.push((i, j));
                            }
                            j = j + 1;
                        }
                    }
                    i = i + 1;
                }
                if pairs.len() > 0 {
                    options.push((Cargo(c), pairs));
                }
            }
            c = c + 1;
        }
        if options.len() == 0 {
            return None;
        }
        let o = random_index(rng, options.len());
        let cargo = options[o].0;
        let pairs = copy_pairs(&options[o].1);
        let (i, j) = pairs[random_index(rng, pairs.len())];
        proof {
            assert(options@[o as int].1@.len() > 0);
            assert(pair_fits(v, self.bookings()[cargo.0 as int], (i, j)));
            assert(schedule@.cargo_truck[cargo.0 as int].is_none());
        }
        let r = self.add_delivery_at(rng, schedule, truck, cargo, i, j);
        proof {
            if r is Some {
                assert(self.delivery_added(schedule@, r.unwrap()@, cargo.0 as int, truck as int, i as int, j as int));
                assert(self.some_delivery_added(schedule@, r.unwrap()@));
            }
        }
        r
    }

    /// Adds the delivery of unscheduled `cargo` to `truck`, picked up at its
    /// checkpoint `i` and dropped off at its later checkpoint `j`, which stand
    /// at the cargo's terminals. Checkpoint `i` moves to a random time that
    /// suits all its cargo and its neighbours, then `j` likewise; the capacity
    /// from `i` up to `j` shrinks by the cargo. None when no time suits `i`,
    /// or then `j`, or when the capacity runs out on the way.
    #[verifier::rlimit(100)]
    pub fn add_delivery_at(
        &self,
        rng: &mut Xoshiro256PlusPlus,
        schedule: &Schedule,
        truck: usize,
        cargo: Cargo,
        i: usize,
        j: usize,
    ) -> (r: Option<Schedule>)
        requires
            self.wf(),
            self.drive_complete(),
            self.schedule_wf(schedule@),
            truck < schedule@.checkpoints.len(),
            cargo.0 < self.bookings().len(),
            schedule@.cargo_truck[cargo.0 as int] is None,
            pair_fits(schedule@.checkpoints[truck as int], self.bookings()[cargo.0 as int], (i, j)),
        ensures
            r matches Some(s) ==> self.schedule_wf(s@),
            r matches Some(s) ==> self.delivery_added(schedule@, s@, cargo.0 as int, truck as int, i as int, j as int),
    {
        let cps = &schedule.truck_checkpoints[truck];
        let ghost v = cps_view(cps@);
        let len = cps.len();
        let start = self.truck_data[truck].starting_terminal;
        let td = self.truck_data[truck];
        proof {
            schedule.lemma_view();
            assert(schedule@.checkpoints[truck as int] == v);
            assert(self.truck_wf(truck as int, v));
        }
        let ghost bk = self.bookings()[cargo.0 as int];
        proof {
            assert(pair_fits(v, bk, (i, j)));
            assert(self.cargo_ok(schedule@, cargo.0 as int));
            assert(!in_pickup(schedule@, cargo.0 as int, truck as int, i as int));
            assert(!in_dropoff(schedule@, cargo.0 as int, truck as int, j as int));
            assert(Cargo(cargo.0 as usize) == cargo);
        }

        // Pick up at `i`, moving it to a time that suits all its cargo.
        let mut new_pickup = copy_cargo(&cps[i].pickup_cargo);
        new_pickup.push(cargo);
        let ghost np = new_pickup@;
        proof {
            assert forall|m: int| 0 <= m < cps@.len() implies self.is_terminal(#[trigger] cps@[m].terminal) by {
                assert(v[m] == cps@[m]@);
                assert(self.checkpoint_ok(self.trucks()[truck as int], v, m));
            }
            assert(v[i as int] == cps@[i as int]@);
            assert(self.checkpoint_ok(self.trucks()[truck as int], v, i as int));
            assert forall|m: int| 0 <= m < new_pickup@.len() implies (#[trigger] new_pickup@[m]).0 < self.bookings().len() by {
                if m < new_pickup@.len() - 1 {
                    assert(new_pickup@[m] == v[i as int].pickup_cargo[m]);
                }
            }
        }
        proof {
            assert forall|m: int| 0 <= m < cps@[i as int].dropoff_cargo@.len() implies (#[trigger] cps@[i as int].dropoff_cargo@[m]).0 < self.bookings().len() by {
                assert(cps@[i as int].dropoff_cargo@[m] == v[i as int].dropoff_cargo[m]);
            }
        }
        let pickup_time = match self.find_random_reschedule_time(rng, start, cps, i, &new_pickup, &cps[i].dropoff_cargo) {
            Some(t) => t,
            None => return None,
        };
        let mut new_cps = copy_checkpoints(cps);
        let mut first = cps[i].duplicate();
        first.pickup_cargo = new_pickup;
        first.time = pickup_time;
        let ghost x1 = first@;
        proof {
            if i + 1 < len {
                assert(v[i + 1] == cps@[i + 1]@);
            }
            if i > 0 {
                assert(v[i - 1] == cps@[i - 1]@);
            }
            assert(x1.terminal == v[i as int].terminal);
            assert(x1.available_teu <= td.max_teu);
            assert(x1.available_weight_kg <= td.max_weight_kg);
            assert(x1.time < self.period().end());
            assert forall|m: int| 0 <= m < x1.pickup_cargo.len() implies (#[trigger] x1.pickup_cargo[m]).0 < self.bookings().len() by {
                assert(x1.pickup_cargo[m] == new_pickup@[m]);
            }
            assert forall|m: int| 0 <= m < x1.dropoff_cargo.len() implies (#[trigger] x1.dropoff_cargo[m]).0 < self.bookings().len() by {
                assert(x1.dropoff_cargo[m] == v[i as int].dropoff_cargo[m]);
            }
            lemma_push_no_duplicates(v[i as int].pickup_cargo, cargo);
            self.lemma_replace_wf(truck as int, v, i as int, x1);
        }
        new_cps[i] = first;
        let ghost v1 = v.update(i as int, x1);
        proof {
            assert(cps_view(new_cps@) =~= v1);
        }

        // Drop off at `j`, after the move of `i`.
        let mut new_dropoff = copy_cargo(&new_cps[j].dropoff_cargo);
        new_dropoff.push(cargo);
        let ghost nd = new_dropoff@;
        let ghost pj = new_cps@[j as int].pickup_cargo@;
        proof {
            assert forall|m: int| 0 <= m < new_cps@.len() implies self.is_terminal(#[trigger] new_cps@[m].terminal) by {
                assert(v1[m] == new_cps@[m]@);
                assert(self.checkpoint_ok(self.trucks()[truck as int], v1, m));
            }
            assert(v1[j as int] == new_cps@[j as int]@);
            assert(self.checkpoint_ok(self.trucks()[truck as int], v1, j as int));
            assert forall|m: int| 0 <= m < new_dropoff@.len() implies (#[trigger] new_dropoff@[m]).0 < self.bookings().len() by {
                if m < new_dropoff@.len() - 1 {
                    assert(new_dropoff@[m] == v1[j as int].dropoff_cargo[m]);
                }
            }
        }
        proof {
            assert forall|m: int| 0 <= m < new_cps@[j as int].pickup_cargo@.len() implies (#[trigger] new_cps@[j as int].pickup_cargo@[m]).0 < self.bookings().len() by {
                assert(new_cps@[j as int].pickup_cargo@[m] == v1[j as int].pickup_cargo[m]);
            }
        }
        let dropoff_time = match self.find_random_reschedule_time(rng, start, &new_cps, j, &new_cps[j].pickup_cargo, &new_dropoff) {
            Some(t) => t,
            None => return None,
        };
        let mut second = new_cps[j].duplicate();
        second.dropoff_cargo = new_dropoff;
        second.time = dropoff_time;
        let ghost x2 = second@;
        proof {
            if j + 1 < len {
                assert(v1[j + 1] == new_cps@[j + 1]@);
            }
            assert(v1[j - 1] == new_cps@[j - 1]@);
            assert(x2.terminal == v1[j as int].terminal);
            assert(x2.available_teu <= td.max_teu);
            assert(x2.available_weight_kg <= td.max_weight_kg);
            assert(x2.time < self.period().end());
            assert forall|m: int| 0 <= m < x2.pickup_cargo.len() implies (#[trigger] x2.pickup_cargo[m]).0 < self.bookings().len() by {
                assert(x2.pickup_cargo[m] == v1[j as int].pickup_cargo[m]);
            }
            assert forall|m: int| 0 <= m < x2.dropoff_cargo.len() implies (#[trigger] x2.dropoff_cargo[m]).0 < self.bookings().len() by {
                assert(x2.dropoff_cargo[m] == new_dropoff@[m]);
            }
            assert(v1[j as int] == v[j as int]);
            lemma_push_no_duplicates(v[j as int].dropoff_cargo, cargo);
            self.lemma_replace_wf(truck as int, v1, j as int, x2);
        }
        new_cps[j] = second;
        let ghost v2 = v1.update(j as int, x2);
        proof {
            assert(cps_view(new_cps@) =~= v2);
        }

        // The cargo rides from `i` up to `j`.
        let info = self.cargo_booking_info[cargo.0];
        let mut k: usize = i;
        while k < j
            invariant
                self.wf(),
                i <= k <= j,
                j < len,
                new_cps@.len() == len,
                truck < self.trucks().len(),
                self.truck_wf(truck as int, cps_view(new_cps@)),
                self.legs(start, cps_view(new_cps@), len as int) == self.legs(start, v, len as int),
                start == self.trucks()[truck as int].starting_terminal,
                td == self.trucks()[truck as int],
                v2.len() == len,
                forall|m: int| 0 <= m < len ==> (#[trigger] cps_view(new_cps@)[m]).time == v2[m].time
                    && cps_view(new_cps@)[m].terminal == v2[m].terminal && cps_view(new_cps@)[m].pickup_cargo == v2[m].pickup_cargo
                    && cps_view(new_cps@)[m].dropoff_cargo == v2[m].dropoff_cargo,
                info == self.bookings()[cargo.0 as int],
                v.len() == len,
                forall|m: int| 0 <= m < len ==> (#[trigger] cps_view(new_cps@)[m]).available_teu + (
                    if i <= m < k { info.teu as int } else { 0 }) == v[m].available_teu
                    && cps_view(new_cps@)[m].available_weight_kg + (if i <= m < k { info.weight_kg as int } else { 0 })
                    == v[m].available_weight_kg,
            decreases j - k,
        {
            let ghost vk = cps_view(new_cps@);
            let mut cp = new_cps[k].duplicate();
            cp.available_weight_kg = match cp.available_weight_kg.checked_sub(info.weight_kg) {
                Some(w) => w,
                None => return None,
            };
            cp.available_teu = match cp.available_teu.checked_sub(info.teu) {
                Some(w) => w,
                None => return None,
            };
            proof {
                assert(vk[k as int] == new_cps@[k as int]@);
                assert(self.checkpoint_ok(td, vk, k as int));
                if k + 1 < len {
                    assert(self.checkpoint_ok(td, vk, k + 1));
                }
                assert forall|m: int| 0 <= m < cp@.pickup_cargo.len() implies (#[trigger] cp@.pickup_cargo[m]).0 < self.bookings().len() by {
                    assert(cp@.pickup_cargo[m] == vk[k as int].pickup_cargo[m]);
                }
                assert forall|m: int| 0 <= m < cp@.dropoff_cargo.len() implies (#[trigger] cp@.dropoff_cargo[m]).0 < self.bookings().len() by {
                    assert(cp@.dropoff_cargo[m] == vk[k as int].dropoff_cargo[m]);
                }
                self.lemma_replace_wf(truck as int, vk, k as int, cp@);
            }
            new_cps[k] = cp;
            proof {
                assert(cps_view(new_cps@) =~= vk.update(k as int, cp@));
            }
            k = k + 1;
        }
        let mut out = schedule.duplicate();
        out.truck_checkpoints[truck] = new_cps;
        out.scheduled_cargo_truck[cargo.0] = Some(Truck(truck));
        proof {
            out.lemma_view();
            let nv = cps_view(new_cps@);
            assert(out@.checkpoints =~= schedule@.checkpoints.update(truck as int, nv));
            assert forall|u: int| 0 <= u < self.trucks().len() implies self.truck_wf(u, #[trigger] out@.checkpoints[u]) by {
                if u != truck {
                    assert(out@.checkpoints[u] == schedule@.checkpoints[u]);
                }
            }
            assert forall|u: int| 0 <= u < self.trucks().len() implies #[trigger] out@.driving_times[u] == self.legs(
                self.trucks()[u].starting_terminal,
                out@.checkpoints[u],
                out@.checkpoints[u].len() as int,
            ) by {
                if u != truck {
                    assert(out@.checkpoints[u] == schedule@.checkpoints[u]);
                }
            }
        }
        proof {
            let s0 = schedule@;
            let s1 = out@;
            let c0 = cargo.0 as int;
            let tr = truck as int;
            let nv = cps_view(new_cps@);
            assert(s1.cargo_truck == s0.cargo_truck.update(c0, Some(Truck(truck))));
            assert(s0.checkpoints[tr] == v);
            assert forall|m: int| 0 <= m < len implies {
                &&& (#[trigger] nv[m]).terminal == v[m].terminal
                &&& nv[m].pickup_cargo == (if m == i { v[m].pickup_cargo.push(cargo) } else { v[m].pickup_cargo })
                &&& nv[m].dropoff_cargo == (if m == j { v[m].dropoff_cargo.push(cargo) } else { v[m].dropoff_cargo })
                &&& (m != i && m != j ==> nv[m].time == v[m].time)
            } by {
                assert(nv[m].time == v2[m].time);
            }
            assert(nv[i as int].time == pickup_time);
            assert(nv[j as int].time == dropoff_time);
            assert forall|c: int, u: int, k: int| c != c0 implies (#[trigger] in_pickup(s1, c, u, k) <==> in_pickup(s0, c, u, k)) by {
                if u == tr && 0 <= k < len && 0 <= c <= usize::MAX {
                    assert(nv[k] == s1.checkpoints[u][k]);
                    if k == i {
                        assert(Cargo(c as usize) != cargo);
                        if v[k].pickup_cargo.contains(Cargo(c as usize)) {
                            let q = choose|q: int| 0 <= q < v[k].pickup_cargo.len() && v[k].pickup_cargo[q] == Cargo(c as usize);
                            assert(v[k].pickup_cargo.push(cargo)[q] == Cargo(c as usize));
                        }
                        if v[k].pickup_cargo.push(cargo).contains(Cargo(c as usize)) {
                            let q = choose|q: int| 0 <= q < v[k].pickup_cargo.push(cargo).len() && v[k].pickup_cargo.push(cargo)[q] == Cargo(c as usize);
                            assert(q < v[k].pickup_cargo.len());
                            assert(v[k].pickup_cargo[q] == Cargo(c as usize));
                        }
                    }
                }
            }
            assert forall|c: int, u: int, k: int| c != c0 implies (#[trigger] in_dropoff(s1, c, u, k) <==> in_dropoff(s0, c, u, k)) by {
                if u == tr && 0 <= k < len && 0 <= c <= usize::MAX {
                    assert(nv[k] == s1.checkpoints[u][k]);
                    if k == j {
                        assert(Cargo(c as usize) != cargo);
                        if v[k].dropoff_cargo.contains(Cargo(c as usize)) {
                            let q = choose|q: int| 0 <= q < v[k].dropoff_cargo.len() && v[k].dropoff_cargo[q] == Cargo(c as usize);
                            assert(v[k].dropoff_cargo.push(cargo)[q] == Cargo(c as usize));
                        }
                        if v[k].dropoff_cargo.push(cargo).contains(Cargo(c as usize)) {
                            let q = choose|q: int| 0 <= q < v[k].dropoff_cargo.push(cargo).len() && v[k].dropoff_cargo.push(cargo)[q] == Cargo(c as usize);
                            assert(q < v[k].dropoff_cargo.len());
                            assert(v[k].dropoff_cargo[q] == Cargo(c as usize));
                        }
                    }
                }
            }
            assert forall|c: int, u: int, k: int| #[trigger] in_pickup(s1, c, u, k) && s1.checkpoints[u][k].time != s0.checkpoints[u][k].time
                implies self.pickup_windows()[c].contains(s1.checkpoints[u][k].time as int) by {
                assert(u == tr);
                assert(nv[k] == s1.checkpoints[u][k]);
                let q = choose|q: int| 0 <= q < nv[k].pickup_cargo.len() && nv[k].pickup_cargo[q] == Cargo(c as usize);
                if k == i {
                    assert(np[q] == Cargo(c as usize));
                } else {
                    assert(k == j);
                    assert(pj[q] == Cargo(c as usize));
                }
            }
            assert forall|c: int, u: int, k: int| #[trigger] in_dropoff(s1, c, u, k) && s1.checkpoints[u][k].time != s0.checkpoints[u][k].time
                implies self.dropoff_windows()[c].contains(s1.checkpoints[u][k].time as int) by {
                assert(u == tr);
                assert(nv[k] == s1.checkpoints[u][k]);
                let q = choose|q: int| 0 <= q < nv[k].dropoff_cargo.len() && nv[k].dropoff_cargo[q] == Cargo(c as usize);
                if k == j {
                    assert(nd[q] == Cargo(c as usize));
                } else {
                    assert(k == i);
                    assert(cps@[i as int].dropoff_cargo@[q] == Cargo(c as usize));
                }
            }
            assert forall|u: int| 0 <= u < s0.checkpoints.len() implies (#[trigger] s1.checkpoints[u]).len() == s0.checkpoints[u].len() by {}
            assert forall|u: int, k: int| 0 <= u < s0.checkpoints.len() && 0 <= k < s0.checkpoints[u].len()
                implies (#[trigger] s1.checkpoints[u][k]).terminal == s0.checkpoints[u][k].terminal by {}
            assert(self.frame(s0, s1, c0));
            assert forall|u: int, k: int| #[trigger] in_pickup(s1, c0, u, k) <==> (u == tr && k == i) by {
                if u == tr && k == i {
                    assert(np[np.len() - 1] == cargo);
                    assert(nv[k].pickup_cargo == np);
                } else if in_pickup(s1, c0, u, k) {
                    if u == tr {
                        assert(nv[k] == s1.checkpoints[u][k]);
                    }
                    assert(in_pickup(s0, c0, u, k));
                }
            }
            assert forall|u: int, k: int| #[trigger] in_dropoff(s1, c0, u, k) <==> (u == tr && k == j) by {
                if u == tr && k == j {
                    assert(nd[nd.len() - 1] == cargo);
                    assert(nv[k].dropoff_cargo == nd);
                } else if in_dropoff(s1, c0, u, k) {
                    if u == tr {
                        assert(nv[k] == s1.checkpoints[u][k]);
                    }
                    assert(in_dropoff(s0, c0, u, k));
                }
            }
            assert(np[np.len() - 1] == cargo);
            assert(nd[nd.len() - 1] == cargo);
            assert(self.placed(s1, c0, tr, i as int, j as int));
            assert forall|c: int| 0 <= c < self.bookings().len() implies #[trigger] self.cargo_ok(s1, c) by {
                if c == c0 {
                    assert(s1.cargo_truck[c] == Some(Truck(truck)));
                    assert(self.placed(s1, c, Truck(truck).0 as int, i as int, j as int));
                    assert(s1.cargo_truck[c].unwrap().0 as int == tr);
                    assert(self.placed(s1, c, s1.cargo_truck[c].unwrap().0 as int, i as int, j as int));
                    assert(exists|i2: int, j2: int| self.placed(s1, c, s1.cargo_truck[c].unwrap().0 as int, i2, j2));
                    assert(s1.cargo_truck[c].is_some());
                    assert(self.cargo_ok(s1, c));
                } else {
                    assert(self.cargo_ok(s0, c));
                    self.lemma_frame(s0, s1, c0, c);
                    assert(self.cargo_ok(s1, c));
                }
            }
            assert forall|u: int| 0 <= u < s0.checkpoints.len() && u != tr implies #[trigger] s1.checkpoints[u] == s0.checkpoints[u] by {}
            assert(self.delivery_added(s0, s1, c0, tr, i as int, j as int));
            assert forall|u: int, m: int| #![trigger in_pickup(s0, c0, u, m)] #![trigger in_dropoff(s0, c0, u, m)]
                !in_pickup(s0, c0, u, m) && !in_dropoff(s0, c0, u, m) by {
                assert(self.cargo_ok(s0, c0));
            }
            assert forall|t: int, k: int| 0 <= t < s1.checkpoints.len() && 0 <= k < s1.checkpoints[t].len() implies {
                &&& (#[trigger] s1.checkpoints[t][k]).available_teu + self.load_teu(s1, t, k, self.bookings().len() as int) == self.trucks()[t].max_teu
                &&& s1.checkpoints[t][k].available_weight_kg + self.load_weight(s1, t, k, self.bookings().len() as int) == self.trucks()[t].max_weight_kg
            } by {
                self.lemma_load_delivery(s0, s1, c0, tr, i as int, j as int, t, k);
                assert(s0.checkpoints[t][k].available_teu + self.load_teu(s0, t, k, self.bookings().len() as int) == self.trucks()[t].max_teu);
                if t != tr {
                    assert(s1.checkpoints[t] == s0.checkpoints[t]);
                }
            }
            assert(self.loads_ok(s1));
        }
        Some(out)
    }
}

impl ScheduleProblem {
    /// Runs operator `action` once: 0 removes a checkpoint, 1 adds one, 2
    /// removes a delivery, 3 adds one.
    pub fn apply_operator(&self, rng: &mut Xoshiro256PlusPlus, schedule: &Schedule, action: usize) -> (r: Option<Schedule>)
        requires
            self.wf(),
            self.drive_complete(),
            self.schedule_wf(schedule@),
            action < 4,
        ensures
            r matches Some(s) ==> self.schedule_wf(s@),
            action == 0 && r is Some ==> some_checkpoint_removed(schedule@, r.unwrap()@),
            action == 1 && r is Some ==> self.some_fitting_checkpoint_inserted(schedule@, r.unwrap()@),
            action == 2 ==> (r is Some <==> exists|c: int| 0 <= c < schedule@.cargo_truck.len() && (#[trigger] schedule@.cargo_truck[c]) is Some),
            action == 2 && r is Some ==> self.some_delivery_removed(schedule@, r.unwrap()@),
            action == 3 && r is Some ==> self.some_delivery_added(schedule@, r.unwrap()@),
    {
        if action == 0 {
            self.remove_random_checkpoint(rng, schedule)
        } else if action == 1 {
            self.add_random_checkpoint(rng, schedule)
        } else if action == 2 {
            self.remove_random_delivery(rng, schedule)
        } else {
            self.add_random_delivery(rng, schedule)
        }
    }

    /// Takes a random scheduled cargo off its truck with `remove_delivery_of`;
    /// none exactly when no cargo is scheduled.
    fn remove_random_delivery(&self, rng: &mut Xoshiro256PlusPlus, schedule: &Schedule) -> (r: Option<Schedule>)
        requires
            self.wf(),
            self.schedule_wf(schedule@),
        ensures
            r is Some <==> exists|c: int| 0 <= c < schedule@.cargo_truck.len() && (#[trigger] schedule@.cargo_truck[c]) is Some,
            r matches Some(s) ==> self.schedule_wf(s@),
            r matches Some(s) ==> self.some_delivery_removed(schedule@, s@),
    {
        proof {
            schedule.lemma_view();
        }
        let n_cargo = schedule.scheduled_cargo_truck.len();
        let mut scheduled: Vec<usize> = Vec::new();
        let mut c: usize = 0;
        while c < n_cargo
            invariant
                n_cargo == schedule.scheduled_cargo_truck@.len(),
                schedule.scheduled_cargo_truck@ == schedule@.cargo_truck,
                c <= n_cargo,
                forall|m: int| 0 <= m < scheduled@.len() ==> (#[trigger] scheduled@[m]) < n_cargo
                    && schedule.scheduled_cargo_truck@[scheduled@[m] as int].is_some(),
                scheduled@.len() == 0 ==> forall|x: int| 0 <= x < c ==> (#[trigger] schedule@.cargo_truck[x]) is None,
            decreases n_cargo - c,
        {
            if schedule.scheduled_cargo_truck[c].is_some() {
                scheduled.push(c);
            }
            c = c + 1;
        }
        if scheduled.len() == 0 {
            return None;
        }
        let cargo = scheduled[random_index(rng, scheduled.len())];
        let out = self.remove_delivery_of(schedule, cargo);
        proof {
            assert(schedule@.cargo_truck[cargo as int] is Some);
            assert(self.delivery_removed(schedule@, out@, cargo as int));
            assert(self.some_delivery_removed(schedule@, out@));
        }
        Some(out)
    }

    /// Takes scheduled cargo `cargo` off its truck: out of the checkpoint that
    /// picks it up and the one that drops it off, with the capacity in between
    /// given back. The checkpoints themselves stay.
    #[verifier::rlimit(100)]
    pub fn remove_delivery_of(&self, schedule: &Schedule, cargo: usize) -> (r: Schedule)
        requires
            self.wf(),
            self.schedule_wf(schedule@),
            cargo < schedule@.cargo_truck.len(),
            schedule@.cargo_truck[cargo as int] is Some,
        ensures
            self.schedule_wf(r@),
            self.delivery_removed(schedule@, r@, cargo as int),
    {
        proof {
            schedule.lemma_view();
            assert(self.cargo_ok(schedule@, cargo as int));
        }
        let truck = match schedule.scheduled_cargo_truck[cargo] {
            Some(t) => t.0,
            None => {
                return unreached();
            },
        };
        proof {
            let (a, b) = choose|i: int, j: int| self.placed(schedule@, cargo as int, truck as int, i, j);
        }
        let cps = &schedule.truck_checkpoints[truck];
        let ghost v = cps_view(cps@);
        let ghost s0 = schedule@;
        let ghost c0 = cargo as int;
        let ghost tr = truck as int;
        let len = cps.len();
        let td = self.truck_data[truck];
        proof {
            assert(s0.checkpoints[tr] == v);
            assert(self.truck_wf(tr, v));
            assert(self.cargo_ok(s0, c0));
            assert(s0.cargo_truck[c0].unwrap().0 as int == tr);
        }
        let ghost (i0, j0) = choose|i: int, j: int| self.placed(s0, c0, tr, i, j);
        let mut i: usize = 0;
        while i < len && !cargo_listed(&cps[i].pickup_cargo, Cargo(cargo))
            invariant
                i <= len,
                len == cps@.len(),
                v == cps_view(cps@),
                s0.checkpoints[tr] == v,
                0 <= tr < s0.checkpoints.len(),
                self.placed(s0, c0, tr, i0, j0),
                c0 == cargo,
                i <= i0,
            decreases len - i,
        {
            proof {
                assert(v[i as int] == cps@[i as int]@);
                if i as int == i0 {
                    assert(in_pickup(s0, c0, tr, i0));
                }
            }
            i = i + 1;
        }
        let mut j: usize = 0;
        while j < len && !cargo_listed(&cps[j].dropoff_cargo, Cargo(cargo))
            invariant
                j <= len,
                len == cps@.len(),
                v == cps_view(cps@),
                s0.checkpoints[tr] == v,
                0 <= tr < s0.checkpoints.len(),
                self.placed(s0, c0, tr, i0, j0),
                c0 == cargo,
                j <= j0,
            decreases len - j,
        {
            proof {
                assert(v[j as int] == cps@[j as int]@);
                if j as int == j0 {
                    assert(in_dropoff(s0, c0, tr, j0));
                }
            }
            j = j + 1;
        }
        proof {
            if i < len {
                assert(v[i as int] == cps@[i as int]@);
                assert(in_pickup(s0, c0, tr, i as int));
            }
            if j < len {
                assert(v[j as int] == cps@[j as int]@);
                assert(in_dropoff(s0, c0, tr, j as int));
            }
        }
        if i >= len || j >= len || j <= i {
            return unreached();
        }
        proof {
            assert(v[i as int] == cps@[i as int]@);
            assert(v[j as int] == cps@[j as int]@);
            assert(in_pickup(s0, c0, tr, i as int));
            assert(in_dropoff(s0, c0, tr, j as int));
        }
        let info = self.cargo_booking_info[cargo];
        let mut new_cps = copy_checkpoints(cps);
        let ghost v0 = cps_view(new_cps@);
        proof {
            assert(v0 =~= v);
        }
        let mut k: usize = 0;
        while k < len
            invariant
                self.wf(),
                k <= len,
                i < j < len,
                new_cps@.len() == len,
                v.len() == len,
                truck < self.trucks().len(),
                self.truck_wf(truck as int, cps_view(new_cps@)),
                self.legs(td.starting_terminal, cps_view(new_cps@), len as int) == self.legs(td.starting_terminal, v, len as int),
                td == self.trucks()[truck as int],
                forall|m: int| 0 <= m < len ==> (#[trigger] cps_view(new_cps@)[m]).time == v[m].time
                    && cps_view(new_cps@)[m].terminal == v[m].terminal,
                forall|m: int| 0 <= m < len && (m != i || m >= k) ==> (#[trigger] cps_view(new_cps@)[m]).pickup_cargo == v[m].pickup_cargo,
                forall|m: int| 0 <= m < len && (m != j || m >= k) ==> (#[trigger] cps_view(new_cps@)[m]).dropoff_cargo == v[m].dropoff_cargo,
                k > i ==> without(v[i as int].pickup_cargo, cps_view(new_cps@)[i as int].pickup_cargo, Cargo(cargo)),
                k > j ==> without(v[j as int].dropoff_cargo, cps_view(new_cps@)[j as int].dropoff_cargo, Cargo(cargo)),
                v[i as int].pickup_cargo.contains(Cargo(cargo)),
                v[j as int].dropoff_cargo.contains(Cargo(cargo)),
                info == self.bookings()[c0],
                self.schedule_wf(s0),
                0 <= tr < s0.checkpoints.len(),
                tr == truck,
                s0.checkpoints[tr] == v,
                c0 == cargo,
                0 <= c0 < self.bookings().len(),
                in_pickup(s0, c0, tr, i as int),
                in_dropoff(s0, c0, tr, j as int),
                forall|m: int| 0 <= m < len ==> (#[trigger] cps_view(new_cps@)[m]).available_teu == v[m].available_teu + (
                    if m < k && i <= m < j { info.teu as int } else { 0 })
                    && cps_view(new_cps@)[m].available_weight_kg == v[m].available_weight_kg + (
                    if m < k && i <= m < j { info.weight_kg as int } else { 0 }),
            decreases len - k,
        {
            let ghost vk = cps_view(new_cps@);
            let mut cp = new_cps[k].duplicate();
            proof {
                assert(vk[k as int] == new_cps@[k as int]@);
                assert(self.checkpoint_ok(td, vk, k as int));
                if k + 1 < len {
                    assert(self.checkpoint_ok(td, vk, k + 1));
                }
            }
            if k == i {
                remove_cargo(&mut cp.pickup_cargo, Cargo(cargo));
                proof {
                    let q = choose|q: int| 0 <= q < vk[k as int].pickup_cargo.len() && vk[k as int].pickup_cargo[q] == Cargo(cargo)
                        && cp.pickup_cargo@ == vk[k as int].pickup_cargo.remove(q) && forall|m: int| 0 <= m < q ==> vk[k as int].pickup_cargo[m] != Cargo(cargo);
                    lemma_remove_without(vk[k as int].pickup_cargo, q, Cargo(cargo));
                }
            }
            if k == j {
                remove_cargo(&mut cp.dropoff_cargo, Cargo(cargo));
                proof {
                    let q = choose|q: int| 0 <= q < vk[k as int].dropoff_cargo.len() && vk[k as int].dropoff_cargo[q] == Cargo(cargo)
                        && cp.dropoff_cargo@ == vk[k as int].dropoff_cargo.remove(q) && forall|m: int| 0 <= m < q ==> vk[k as int].dropoff_cargo[m] != Cargo(cargo);
                    lemma_remove_without(vk[k as int].dropoff_cargo, q, Cargo(cargo));
                }
            }
            if i <= k && k < j {
                proof {
                    assert(in_pickup(s0, c0, tr, i as int) && in_dropoff(s0, c0, tr, j as int));
                    assert(carried(s0, c0, tr, k as int));
                    self.lemma_load_at_least(s0, tr, k as int, c0, self.bookings().len() as int);
                    assert(s0.checkpoints[tr][k as int] == v[k as int]);
                    assert(v[k as int].available_teu + self.load_teu(s0, tr, k as int, self.bookings().len() as int) == td.max_teu);
                    assert(vk[k as int] == new_cps@[k as int]@);
                }
                cp.available_weight_kg = cp.available_weight_kg + info.weight_kg;
                cp.available_teu = cp.available_teu + info.teu;
            }
            proof {
                assert forall|m: int| 0 <= m < cp@.pickup_cargo.len() implies (#[trigger] cp@.pickup_cargo[m]).0 < self.bookings().len() by {
                    if k == i {
                        if cp@.pickup_cargo[m] != vk[k as int].pickup_cargo[m] {
                            assert(cp@.pickup_cargo[m] == vk[k as int].pickup_cargo[m + 1]);
                        }
                    } else {
                        assert(cp@.pickup_cargo[m] == vk[k as int].pickup_cargo[m]);
                    }
                }
                assert forall|m: int| 0 <= m < cp@.dropoff_cargo.len() implies (#[trigger] cp@.dropoff_cargo[m]).0 < self.bookings().len() by {
                    if k == j {
                        if cp@.dropoff_cargo[m] != vk[k as int].dropoff_cargo[m] {
                            assert(cp@.dropoff_cargo[m] == vk[k as int].dropoff_cargo[m + 1]);
                        }
                    } else {
                        assert(cp@.dropoff_cargo[m] == vk[k as int].dropoff_cargo[m]);
                    }
                }
                self.lemma_replace_wf(truck as int, vk, k as int, cp@);
            }
            new_cps[k] = cp;
            proof {
                assert(cps_view(new_cps@) =~= vk.update(k as int, cp@));
            }
            k = k + 1;
        }
        let mut out = schedule.duplicate();
        out.truck_checkpoints[truck] = new_cps;
        out.scheduled_cargo_truck[cargo] = None;
        proof {
            out.lemma_view();
            let nv = cps_view(new_cps@);
            let s1 = out@;
            assert(s1.checkpoints =~= s0.checkpoints.update(tr, nv));
            assert(s1.cargo_truck == s0.cargo_truck.update(c0, None));
            assert forall|u: int| 0 <= u < self.trucks().len() implies self.truck_wf(u, #[trigger] s1.checkpoints[u]) by {
                if u != truck {
                    assert(s1.checkpoints[u] == s0.checkpoints[u]);
                }
            }
            assert forall|u: int| 0 <= u < self.trucks().len() implies #[trigger] s1.driving_times[u] == self.legs(
                self.trucks()[u].starting_terminal,
                s1.checkpoints[u],
                s1.checkpoints[u].len() as int,
            ) by {
                if u != truck {
                    assert(s1.checkpoints[u] == s0.checkpoints[u]);
                }
            }
            assert forall|c: int, u: int, k: int| c != c0 implies (#[trigger] in_pickup(s1, c, u, k) <==> in_pickup(s0, c, u, k)) by {
                if u == tr && 0 <= k < len && 0 <= c <= usize::MAX {
                    assert(nv[k] == s1.checkpoints[u][k]);
                    if k == i {
                        assert(Cargo(c as usize) != Cargo(cargo));
                    }
                }
            }
            assert forall|c: int, u: int, k: int| c != c0 implies (#[trigger] in_dropoff(s1, c, u, k) <==> in_dropoff(s0, c, u, k)) by {
                if u == tr && 0 <= k < len && 0 <= c <= usize::MAX {
                    assert(nv[k] == s1.checkpoints[u][k]);
                    if k == j {
                        assert(Cargo(c as usize) != Cargo(cargo));
                    }
                }
            }
            assert forall|c: int, u: int, k: int| #[trigger] in_pickup(s1, c, u, k) implies s1.checkpoints[u][k].time == s0.checkpoints[u][k].time by {
                if u == tr {
                    assert(nv[k] == s1.checkpoints[u][k]);
                }
            }
            assert forall|c: int, u: int, k: int| #[trigger] in_dropoff(s1, c, u, k) implies s1.checkpoints[u][k].time == s0.checkpoints[u][k].time by {
                if u == tr {
                    assert(nv[k] == s1.checkpoints[u][k]);
                }
            }
            assert forall|u: int| 0 <= u < s0.checkpoints.len() implies (#[trigger] s1.checkpoints[u]).len() == s0.checkpoints[u].len() by {}
            assert forall|u: int, k: int| 0 <= u < s0.checkpoints.len() && 0 <= k < s0.checkpoints[u].len()
                implies (#[trigger] s1.checkpoints[u][k]).terminal == s0.checkpoints[u][k].terminal by {
                if u == tr {
                    assert(nv[k] == s1.checkpoints[u][k]);
                }
            }
            assert(self.frame(s0, s1, c0));
            assert forall|u: int, k: int| #![trigger in_pickup(s1, c0, u, k)] #![trigger in_dropoff(s1, c0, u, k)]
                !in_pickup(s1, c0, u, k) && !in_dropoff(s1, c0, u, k) by {
                if u == tr && 0 <= k < len {
                    assert(nv[k] == s1.checkpoints[u][k]);
                    if k != i {
                        assert(!in_pickup(s0, c0, u, k));
                    }
                    if k != j {
                        assert(!in_dropoff(s0, c0, u, k));
                    }
                } else if 0 <= u < s0.checkpoints.len() && u != tr {
                    assert(s1.checkpoints[u] == s0.checkpoints[u]);
                    assert(!in_pickup(s0, c0, u, k));
                    assert(!in_dropoff(s0, c0, u, k));
                }
            }
            assert(self.placed(s0, c0, tr, i as int, j as int));
            assert forall|u: int| 0 <= u < s0.checkpoints.len() && u != tr implies #[trigger] s1.checkpoints[u] == s0.checkpoints[u] by {}
            assert forall|t: int, k: int| 0 <= t < s1.checkpoints.len() && 0 <= k < s1.checkpoints[t].len() implies {
                &&& (#[trigger] s1.checkpoints[t][k]).available_teu + self.load_teu(s1, t, k, self.bookings().len() as int) == self.trucks()[t].max_teu
                &&& s1.checkpoints[t][k].available_weight_kg + self.load_weight(s1, t, k, self.bookings().len() as int) == self.trucks()[t].max_weight_kg
            } by {
                self.lemma_load_delivery(s1, s0, c0, tr, i as int, j as int, t, k);
                assert(s0.checkpoints[t][k].available_teu + self.load_teu(s0, t, k, self.bookings().len() as int) == self.trucks()[t].max_teu);
                if t != tr {
                    assert(s1.checkpoints[t] == s0.checkpoints[t]);
                } else {
                    assert(nv[k] == s1.checkpoints[t][k]);
                }
            }
            assert(self.loads_ok(s1));
            assert(self.delivery_removed(s0, s1, c0));
            assert(0 <= c0 < self.bookings().len());
            assert(s0 == schedule@);
            assert forall|c: int| 0 <= c < self.bookings().len() implies #[trigger] self.cargo_ok(s1, c) by {
                if c == c0 {
                    assert(s1.cargo_truck[c].is_none());
                } else {
                    assert(self.cargo_ok(s0, c));
                    self.lemma_frame(s0, s1, c0, c);
                }
            }
        }
        out
    }
}

impl ScheduleProblem {
    /// `s2` is `s` with the delivery of cargo `c` taken off: the cargo is
    /// unscheduled, the routes stay, and between its pickup `i` and dropoff `j`
    /// every checkpoint of its truck has its size given back.
    pub open spec fn delivery_removed(&self, s: ScheduleModel, s2: ScheduleModel, c: int) -> bool {
        let t = s.cargo_truck[c].unwrap().0 as int;
        let b = self.bookings()[c];
        &&& s.cargo_truck[c].is_some()
        &&& s2.cargo_truck == s.cargo_truck.update(c, None)
        &&& s2.checkpoints.len() == s.checkpoints.len()
        &&& forall|u: int| 0 <= u < s.checkpoints.len() && u != t ==> #[trigger] s2.checkpoints[u] == s.checkpoints[u]
        &&& s2.checkpoints[t].len() == s.checkpoints[t].len()
        &&& exists|i: int, j: int| #![trigger self.placed(s, c, t, i, j)] self.placed(s, c, t, i, j) && forall|k: int| 0 <= k < s.checkpoints[t].len() ==> {
            &&& (#[trigger] s2.checkpoints[t][k]).time == s.checkpoints[t][k].time
            &&& s2.checkpoints[t][k].terminal == s.checkpoints[t][k].terminal
            &&& s2.checkpoints[t][k].available_teu == s.checkpoints[t][k].available_teu + (if i <= k < j { b.teu as int } else { 0 })
            &&& s2.checkpoints[t][k].available_weight_kg == s.checkpoints[t][k].available_weight_kg + (
                if i <= k < j { b.weight_kg as int } else { 0 })
            &&& (k == i ==> without(s.checkpoints[t][k].pickup_cargo, s2.checkpoints[t][k].pickup_cargo, Cargo(c as usize)))
            &&& (k != i ==> s2.checkpoints[t][k].pickup_cargo == s.checkpoints[t][k].pickup_cargo)
            &&& (k == j ==> without(s.checkpoints[t][k].dropoff_cargo, s2.checkpoints[t][k].dropoff_cargo, Cargo(c as usize)))
            &&& (k != j ==> s2.checkpoints[t][k].dropoff_cargo == s.checkpoints[t][k].dropoff_cargo)
        }
    }
}

impl ScheduleProblem {
    /// `s2` is `s` with the delivery of one of its scheduled cargo taken off.
    pub open spec fn some_delivery_removed(&self, s: ScheduleModel, s2: ScheduleModel) -> bool {
        exists|c: int| 0 <= c < self.bookings().len() && #[trigger] self.delivery_removed(s, s2, c)
    }
}

/// `new` is `old` without `c`: it lists every other cargo that `old` lists, no
/// cargo twice, and not `c`.
pub open spec fn without(old: Seq<Cargo>, new: Seq<Cargo>, c: Cargo) -> bool {
    &&& !new.contains(c)
    &&& new.no_duplicates()
    &&& forall|c2: Cargo| c2 != c ==> (new.contains(c2) <==> old.contains(c2))
}

proof fn lemma_remove_without(old: Seq<Cargo>, q: int, c: Cargo)
    requires
        old.no_duplicates(),
        0 <= q < old.len(),
        old[q] == c,
    ensures
        without(old, old.remove(q), c),
{
    let new = old.remove(q);
    assert forall|m: int| 0 <= m < new.len() implies #[trigger] new[m] == old[if m < q { m } else { m + 1 }] by {}
    if new.contains(c) {
        let m = choose|m: int| 0 <= m < new.len() && new[m] == c;
        assert(new[m] == old[if m < q { m } else { m + 1 }]);
    }
    assert forall|a: int, b: int| 0 <= a < new.len() && 0 <= b < new.len() && a != b implies new[a] != new[b] by {
        assert(new[a] == old[if a < q { a } else { a + 1 }]);
        assert(new[b] == old[if b < q { b } else { b + 1 }]);
    }
    assert forall|c2: Cargo| c2 != c implies (new.contains(c2) <==> old.contains(c2)) by {
        if new.contains(c2) {
            let m = choose|m: int| 0 <= m < new.len() && new[m] == c2;
            assert(new[m] == old[if m < q { m } else { m + 1 }]);
        }
        if old.contains(c2) {
            let m = choose|m: int| 0 <= m < old.len() && old[m] == c2;
            if m < q {
                assert(new[m] == old[m]);
            } else {
                assert(m != q);
                assert(new[m - 1] == old[m]);
            }
        }
    }
}

/// Whether `c` is in `v`.
fn cargo_listed(v: &Vec<Cargo>, c: Cargo) -> (r: bool)
    ensures
        r <==> v@.contains(c),
{
    let mut i: usize = 0;
    while i < v.len()
        invariant
            i <= v@.len(),
            forall|m: int| 0 <= m < i ==> v@[m] != c,
        decreases v@.len() - i,
    {
        if v[i].0 == c.0 {
            return true;
        }
        i = i + 1;
    }
    false
}

/// Number of scheduled cargo among the first `n`.
pub open spec fn count_scheduled(a: Seq<Option<Truck>>, n: int) -> int
    decreases n,
{
    if n <= 0 {
        0
    } else {
        count_scheduled(a, n - 1) + if a[n - 1].is_some() { 1int } else { 0int }
    }
}

/// Number of trucks without checkpoints among the first `n`.
pub open spec fn count_free(cps: Seq<Seq<CheckpointModel>>, n: int) -> int
    decreases n,
{
    if n <= 0 {
        0
    } else {
        count_free(cps, n - 1) + if cps[n - 1].len() == 0 { 1int } else { 0int }
    }
}

/// Sum of the first `n` driving times.
pub open spec fn sum_times(d: Seq<NonNegativeTimeDelta>, n: int) -> int
    decreases n,
{
    if n <= 0 {
        0
    } else {
        sum_times(d, n - 1) + d[n - 1]
    }
}

impl ScheduleProblem {
    /// Sum of the direct driving times of the scheduled cargo among the first `n`.
    pub open spec fn min_driving(&self, a: Seq<Option<Truck>>, n: int) -> int
        decreases n,
    {
        if n <= 0 {
            0
        } else {
            self.min_driving(a, n - 1) + if a[n - 1].is_some() {
                self.drive(self.bookings()[n - 1].from, self.bookings()[n - 1].to)
            } else {
                0
            }
        }
    }

    /// The schedule in which no truck has a checkpoint.
    pub fn empty_schedule(&self) -> (r: Schedule)
        requires
            self.wf(),
        ensures
            self.schedule_wf(r@),
            forall|t: int| 0 <= t < r@.checkpoints.len() ==> (#[trigger] r@.checkpoints[t]).len() == 0,
            forall|c: int| 0 <= c < r@.cargo_truck.len() ==> (#[trigger] r@.cargo_truck[c]).is_none(),
            forall|t: int| 0 <= t < r@.driving_times.len() ==> #[trigger] r@.driving_times[t] == 0,
    {
        let n = self.truck_data.len();
        let mut cps: Vec<Vec<Checkpoint>> = Vec::new();
        let mut times: Vec<NonNegativeTimeDelta> = Vec::new();
        let mut t: usize = 0;
        while t < n
            invariant
                t <= n,
                cps@.len() == t,
                times@.len() == t,
                forall|k: int| 0 <= k < t ==> (#[trigger] cps@[k])@.len() == 0,
                forall|k: int| 0 <= k < t ==> #[trigger] times@[k] == 0,
            decreases n - t,
        {
            cps.push(Vec::new());
            times.push(0);
            t = t + 1;
        }
        let m = self.cargo_booking_info.len();
        let mut assigned: Vec<Option<Truck>> = Vec::new();
        let mut c: usize = 0;
        while c < m
            invariant
                c <= m,
                assigned@.len() == c,
                forall|k: int| 0 <= k < c ==> (#[trigger] assigned@[k]).is_none(),
            decreases m - c,
        {
            assigned.push(None);
            c = c + 1;
        }
        let r = Schedule { truck_checkpoints: cps, scheduled_cargo_truck: assigned, truck_driving_times: times };
        proof {
            r.lemma_view();
            assert forall|t: int| 0 <= t < self.trucks().len() implies self.truck_wf(t, #[trigger] r@.checkpoints[t]) by {
                assert(r@.checkpoints[t].len() == 0);
            }
            assert forall|t: int| 0 <= t < self.trucks().len() implies #[trigger] r@.driving_times[t] == self.legs(
                self.trucks()[t].starting_terminal,
                r@.checkpoints[t],
                r@.checkpoints[t].len() as int,
            ) by {
                assert(r@.checkpoints[t].len() == 0);
            }
        }
        r
    }

    /// The driving time from pickup to dropoff terminal is known for every
    /// scheduled cargo of `s`.
    pub open spec fn scored_pairs_known(&self, s: ScheduleModel) -> bool {
        forall|c: int| 0 <= c < s.cargo_truck.len() && (#[trigger] s.cargo_truck[c]).is_some() ==> self.cache().known(
            self.bookings()[c].from.0 as int,
            self.bookings()[c].to.0 as int,
        )
    }

    /// Whether the driving times that the scores of `schedule` need are known.
    pub fn scored_pairs_are_known(&self, schedule: &Schedule) -> (r: bool)
        requires
            self.wf(),
            self.schedule_wf(schedule@),
        ensures
            r == self.scored_pairs_known(schedule@),
    {
        proof {
            schedule.lemma_view();
        }
        let a = &schedule.scheduled_cargo_truck;
        let mut c: usize = 0;
        while c < a.len()
            invariant
                self.wf(),
                a@ == schedule@.cargo_truck,
                a@.len() == self.bookings().len(),
                c <= a@.len(),
                forall|x: int| 0 <= x < c && (#[trigger] a@[x]).is_some() ==> self.cache().known(
                    self.bookings()[x].from.0 as int,
                    self.bookings()[x].to.0 as int,
                ),
            decreases a@.len() - c,
        {
            if a[c].is_some() {
                let info = self.cargo_booking_info[c];
                if !self.driving_times_cache.is_known(info.from.0, info.to.0) {
                    proof {
                        assert(a@[c as int].is_some());
                    }
                    return false;
                }
            }
            c = c + 1;
        }
        true
    }

    /// The integer parts of the scores of `schedule`.
    pub fn score_parts(&self, schedule: &Schedule) -> (r: ScoreParts)
        requires
            self.wf(),
            self.scored_pairs_known(schedule@),
            self.schedule_wf(schedule@),
        ensures
            r.num_deliveries == count_scheduled(schedule@.cargo_truck, schedule@.cargo_truck.len() as int),
            r.num_cargo == self.bookings().len(),
            r.num_free_trucks == count_free(schedule@.checkpoints, schedule@.checkpoints.len() as int),
            r.num_trucks == self.trucks().len(),
            r.min_driving_time == self.min_driving(schedule@.cargo_truck, schedule@.cargo_truck.len() as int),
            r.total_driving_time == (if sum_times(schedule@.driving_times, schedule@.driving_times.len() as int) < 1 {
                1
            } else {
                sum_times(schedule@.driving_times, schedule@.driving_times.len() as int)
            }),
    {
        proof {
            schedule.lemma_view();
        }
        let a = &schedule.scheduled_cargo_truck;
        let n = a.len();
        let mut deliveries: usize = 0;
        let mut min_driving: u128 = 0;
        let mut c: usize = 0;
        while c < n
            invariant
                self.wf(),
                self.scored_pairs_known(schedule@),
                n == a@.len(),
                a@ == schedule@.cargo_truck,
                n == self.bookings().len(),
                c <= n,
                deliveries == count_scheduled(a@, c as int),
                deliveries <= c,
                min_driving == self.min_driving(a@, c as int),
                min_driving <= c * 0xFFFF_FFFF_FFFF_FFFFu128,
            decreases n - c,
        {
            if a[c].is_some() {
                let info = self.cargo_booking_info[c];
                proof {
                    assert(self.cache().known(info.from.0 as int, info.to.0 as int));
                }
                let d = self.driving_times_cache.get_driving_time(info.from, info.to);
                proof {
                    assert(c * 0xFFFF_FFFF_FFFF_FFFFu128 + 0xFFFF_FFFF_FFFF_FFFFu128 == (c + 1) * 0xFFFF_FFFF_FFFF_FFFFu128) by (nonlinear_arith);
                    assert((c + 1) * 0xFFFF_FFFF_FFFF_FFFFu128 <= 0x1_0000_0000_0000_0000u128 * 0xFFFF_FFFF_FFFF_FFFFu128) by (nonlinear_arith)
                        requires c + 1 <= 0x1_0000_0000_0000_0000u128;
                }
                min_driving = min_driving + d as u128;
                deliveries = deliveries + 1;
            } else {
                proof {
                    assert(c * 0xFFFF_FFFF_FFFF_FFFFu128 <= (c + 1) * 0xFFFF_FFFF_FFFF_FFFFu128) by (nonlinear_arith);
                }
            }
            c = c + 1;
        }
        let cps = &schedule.truck_checkpoints;
        let mut free: usize = 0;
        let mut t: usize = 0;
        while t < cps.len()
            invariant
                t <= cps@.len(),
                cps@.len() == schedule@.checkpoints.len(),
                forall|k: int| 0 <= k < cps@.len() ==> #[trigger] schedule@.checkpoints[k] == cps_view(cps@[k]@),
                free == count_free(schedule@.checkpoints, t as int),
                free <= t,
            decreases cps@.len() - t,
        {
            proof {
                assert(schedule@.checkpoints[t as int] == cps_view(cps@[t as int]@));
            }
            if cps[t].len() == 0 {
                free = free + 1;
            }
            t = t + 1;
        }
        let d = &schedule.truck_driving_times;
        let mut total: u128 = 0;
        let mut k: usize = 0;
        while k < d.len()
            invariant
                k <= d@.len(),
                d@ == schedule@.driving_times,
                total == sum_times(d@, k as int),
                total <= k * 0xFFFF_FFFF_FFFF_FFFFu128,
            decreases d@.len() - k,
        {
            proof {
                assert(k * 0xFFFF_FFFF_FFFF_FFFFu128 + 0xFFFF_FFFF_FFFF_FFFFu128 == (k + 1) * 0xFFFF_FFFF_FFFF_FFFFu128) by (nonlinear_arith);
                assert((k + 1) * 0xFFFF_FFFF_FFFF_FFFFu128 <= 0x1_0000_0000_0000_0000u128 * 0xFFFF_FFFF_FFFF_FFFFu128) by (nonlinear_arith)
                    requires k + 1 <= 0x1_0000_0000_0000_0000u128;
            }
            total = total + d[k] as u128;
            k = k + 1;
        }
        ScoreParts {
            num_deliveries: deliveries,
            num_cargo: self.cargo_booking_info.len(),
            num_free_trucks: free,
            num_trucks: self.truck_data.len(),
            min_driving_time: min_driving,
            total_driving_time: if total < 1 { 1 } else { total },
        }
    }

    /// The ids of the terminals that trucks and kept bookings use, in index order.
    pub fn get_terminal_ids(&self) -> (r: Vec<String>)
        requires
            self.wf(),
        ensures
            r@.map_values(|s: String| s@) == active_ids(self.terminal_ids(), self.active(), self.active().len() as int),
    {
        let n = self.terminal_active.len();
        let mut r: Vec<String> = Vec::new();
        let mut x: usize = 0;
        while x < n
            invariant
                self.wf(),
                n == self.active().len(),
                x <= n,
                r@.map_values(|s: String| s@) == active_ids(self.terminal_ids(), self.active(), x as int),
            decreases n - x,
        {
            if self.terminal_active[x] {
                match self.terminal_mapper.map(&Terminal(x)) {
                    Some(id) => {
                        r.push(id);
                    },
                    None => {},
                }
                proof {
                    assert(r@.map_values(|s: String| s@) =~= active_ids(self.terminal_ids(), self.active(), x + 1));
                }
            }
            x = x + 1;
        }
        r
    }

    /// Whether the driving time between every two used terminals is known.
    pub fn driving_times_complete(&self) -> (r: bool)
        ensures
            r == self.drive_complete(),
    {
        let n = self.terminal_active.len();
        let mut a: usize = 0;
        while a < n
            invariant
                n == self.active().len(),
                a <= n,
                forall|x: Terminal, y: Terminal| #![trigger self.cache().known(x.0 as int, y.0 as int)]
                    x.0 < a && self.is_terminal(x) && self.is_terminal(y) ==> self.cache().known(x.0 as int, y.0 as int),
            decreases n - a,
        {
            let mut b: usize = 0;
            while b < n
                invariant
                    n == self.active().len(),
                    a < n,
                    b <= n,
                    forall|x: Terminal, y: Terminal| #![trigger self.cache().known(x.0 as int, y.0 as int)]
                        x.0 < a && self.is_terminal(x) && self.is_terminal(y) ==> self.cache().known(x.0 as int, y.0 as int),
                    forall|y: Terminal| #![trigger self.cache().known(a as int, y.0 as int)]
                        y.0 < b && self.is_terminal(Terminal(a)) && self.is_terminal(y) ==> self.cache().known(a as int, y.0 as int),
                decreases n - b,
            {
                if self.terminal_active[a] && self.terminal_active[b] && !self.driving_times_cache.is_known(a, b) {
                    proof {
                        assert(self.is_terminal(Terminal(a)) && self.is_terminal(Terminal(b)));
                        assert(!self.cache().known(Terminal(a).0 as int, Terminal(b).0 as int));
                    }
                    return false;
                }
                b = b + 1;
            }
            proof {
                assert forall|x: Terminal, y: Terminal| #![trigger self.cache().known(x.0 as int, y.0 as int)]
                    x.0 < a + 1 && self.is_terminal(x) && self.is_terminal(y) implies self.cache().known(x.0 as int, y.0 as int) by {
                    if x.0 == a {
                        assert(x == Terminal(a));
                    }
                }
            }
            a = a + 1;
        }
        true
    }

    /// The external id of a terminal.
    pub fn terminal_name(&self, terminal: Terminal) -> (r: Option<String>)
        ensures
            r.is_some() <==> terminal.0 < self.terminal_ids().len(),
            r matches Some(s) ==> s@ == self.terminal_ids()[terminal.0 as int],
    {
        self.terminal_mapper.map(&terminal)
    }

    /// The external id of a cargo.
    pub fn cargo_name(&self, cargo: Cargo) -> (r: Option<String>)
        ensures
            r.is_some() <==> cargo.0 < self.cargo_ids().len(),
            r matches Some(s) ==> s@ == self.cargo_ids()[cargo.0 as int],
    {
        self.cargo_mapper.map(&cargo)
    }

    /// The external id of a truck.
    pub fn truck_name(&self, truck: Truck) -> (r: Option<String>)
        ensures
            r.is_some() <==> truck.0 < self.truck_ids().len(),
            r matches Some(s) ==> s@ == self.truck_ids()[truck.0 as int],
    {
        self.truck_mapper.map(&truck)
    }
}

/// Builds schedules and their neighbours, drawing on a seeded random engine.
pub struct ScheduleGenerator {
    problem: ScheduleProblem,
    rng: Xoshiro256PlusPlus,
}

impl ScheduleGenerator {
    pub closed spec fn problem(&self) -> ScheduleProblem {
        self.problem
    }

    /// Builds a generator for the given terminals, trucks, bookings and
    /// planning period, seeded with 0; see `ScheduleProblem::new`.
    pub fn new(
        terminal_data: &Vec<(String, Time, Time)>,
        truck_data: &Vec<(String, PyTruckData)>,
        booking_data: &Vec<PyBooking>,
        planning_period: (Time, Time),
    ) -> (r: Result<ScheduleGenerator, ScheduleError>)
        requires
            names_distinct(terminal_names(terminal_data@)),
            names_distinct(truck_names(truck_data@)),
            forall|t: int| 0 <= t < truck_data@.len() ==> terminal_names(terminal_data@).contains(
                (#[trigger] truck_data@[t]).1.starting_terminal@),
            forall|b: int| 0 <= b < booking_data@.len() ==> terminal_names(terminal_data@).contains(
                (#[trigger] booking_data@[b]).from_terminal@) && terminal_names(terminal_data@).contains(
                booking_data@[b].to_terminal@),
        ensures
            r is Err <==> input_invalid(terminal_data@, booking_data@, planning_period),
            r matches Err(e) ==> names_empty_interval(e, terminal_data@, booking_data@, planning_period),
            r matches Ok(g) ==> built_from(g.problem(), terminal_data@, truck_data@, booking_data@, planning_period),
    {
        let problem = ScheduleProblem::new(terminal_data, truck_data, booking_data, planning_period)?;
        Ok(ScheduleGenerator { problem, rng: seeded_rng(0) })
    }

    /// The fixed inputs of the run.
    pub fn get_problem(&self) -> (r: &ScheduleProblem)
        ensures
            *r == self.problem(),
    {
        &self.problem
    }

    /// The schedule in which no truck has a checkpoint.
    pub fn empty_schedule(&self) -> (r: Schedule)
        requires
            self.problem().wf(),
        ensures
            self.problem().schedule_wf(r@),
            forall|t: int| 0 <= t < r@.checkpoints.len() ==> (#[trigger] r@.checkpoints[t]).len() == 0,
            forall|c: int| 0 <= c < r@.cargo_truck.len() ==> (#[trigger] r@.cargo_truck[c]).is_none(),
            forall|t: int| 0 <= t < r@.driving_times.len() ==> #[trigger] r@.driving_times[t] == 0,
    {
        self.problem.empty_schedule()
    }

    /// Reseeds the random engine.
    pub fn seed(&mut self, seed: u64)
        ensures
            final(self).problem() == old(self).problem(),
    {
        self.rng = seeded_rng(seed);
    }

    /// One round of the neighbour search: draws one of the four operators
    /// (remove-checkpoint, add-checkpoint, remove-delivery, add-delivery)
    /// uniformly and tries it up to `num_tries_per_action` times; the first
    /// schedule it produces, or none.
    pub fn try_schedule_neighbour(&mut self, schedule: &Schedule, num_tries_per_action: usize) -> (r: Option<Schedule>)
        requires
            old(self).problem().wf(),
            old(self).problem().drive_complete(),
            old(self).problem().schedule_wf(schedule@),
        ensures
            final(self).problem() == old(self).problem(),
            r matches Some(s) ==> final(self).problem().schedule_wf(s@),
            r matches Some(s) ==> {
                ||| some_checkpoint_removed(schedule@, s@)
                ||| old(self).problem().some_fitting_checkpoint_inserted(schedule@, s@)
                ||| old(self).problem().some_delivery_removed(schedule@, s@)
                ||| old(self).problem().some_delivery_added(schedule@, s@)
            },
    {
        let action = random_index(&mut self.rng, 4);
        let mut tries: usize = 0;
        while tries < num_tries_per_action
            invariant
                self.problem() == old(self).problem(),
                self.problem().wf(),
                self.problem().drive_complete(),
                self.problem().schedule_wf(schedule@),
                action < 4,
            decreases num_tries_per_action - tries,
        {
            let new_schedule = self.problem.apply_operator(&mut self.rng, schedule, action);
            if new_schedule.is_some() {
                return new_schedule;
            }
            tries = tries + 1;
        }
        None
    }

    /// The integer parts of the scores of `schedule`.
    pub fn scores(&self, schedule: &Schedule) -> (r: ScoreParts)
        requires
            self.problem().wf(),
            self.problem().scored_pairs_known(schedule@),
            self.problem().schedule_wf(schedule@),
        ensures
            r.num_deliveries == count_scheduled(schedule@.cargo_truck, schedule@.cargo_truck.len() as int),
            r.num_cargo == self.problem().bookings().len(),
            r.num_free_trucks == count_free(schedule@.checkpoints, schedule@.checkpoints.len() as int),
            r.num_trucks == self.problem().trucks().len(),
            r.min_driving_time == self.problem().min_driving(schedule@.cargo_truck, schedule@.cargo_truck.len() as int),
            r.total_driving_time == (if sum_times(schedule@.driving_times, schedule@.driving_times.len() as int) < 1 {
                1
            } else {
                sum_times(schedule@.driving_times, schedule@.driving_times.len() as int)
            }),
    {
        self.problem.score_parts(schedule)
    }

    /// The ids of the terminals that trucks and kept bookings use.
    pub fn get_terminal_ids(&self) -> (r: Vec<String>)
        requires
            self.problem().wf(),
        ensures
            r@.map_values(|s: String| s@) == active_ids(
                self.problem().terminal_ids(),
                self.problem().active(),
                self.problem().active().len() as int,
            ),
    {
        self.problem.get_terminal_ids()
    }

    /// Whether the driving time between every two used terminals is known.
    pub fn driving_times_complete(&self) -> (r: bool)
        ensures
            r == self.problem().drive_complete(),
    {
        self.problem.driving_times_complete()
    }
}

pub open spec fn row_names(rows: Seq<(String, Vec<NonNegativeTimeDelta>)>) -> Seq<Seq<char>> {
    rows.map_values(|r: (String, Vec<NonNegativeTimeDelta>)| r.0@)
}

pub open spec fn order_names(order: Seq<String>) -> Seq<Seq<char>> {
    order.map_values(|s: String| s@)
}

/// Entry `(k, c)` of the input gives the driving time from terminal `a` to terminal `b`.
pub open spec fn gives_time(
    ids: Seq<Seq<char>>,
    order: Seq<String>,
    rows: Seq<(String, Vec<NonNegativeTimeDelta>)>,
    k: int,
    c: int,
    a: int,
    b: int,
) -> bool {
    &&& 0 <= k < rows.len()
    &&& 0 <= c < rows[k].1@.len()
    &&& 0 <= a < ids.len()
    &&& 0 <= b < ids.len()
    &&& ids[a] == rows[k].0@
    &&& ids[b] == order[c]@
}

impl ScheduleProblem {
    /// The same problem with another driving-time matrix.
    pub open spec fn same_but_cache(&self, other: ScheduleProblem) -> bool {
        &&& self.trucks() == other.trucks()
        &&& self.bookings() == other.bookings()
        &&& self.pickup_windows() == other.pickup_windows()
        &&& self.dropoff_windows() == other.dropoff_windows()
        &&& self.active() == other.active()
        &&& self.period() == other.period()
        &&& self.terminal_ids() == other.terminal_ids()
        &&& self.cargo_ids() == other.cargo_ids()
        &&& self.truck_ids() == other.truck_ids()
    }

    /// Replaces the driving times: row `driving_times[k].1` holds the times from
    /// terminal `driving_times[k].0` to the terminals of `terminal_id_order`, in
    /// that order.
    pub fn set_driving_times(&mut self, terminal_id_order: &Vec<String>, driving_times: &Vec<(String, Vec<NonNegativeTimeDelta>)>)
        requires
            old(self).wf(),
            names_distinct(order_names(terminal_id_order@)),
            names_distinct(row_names(driving_times@)),
            forall|c: int| 0 <= c < terminal_id_order@.len() ==> old(self).terminal_ids().contains((#[trigger] terminal_id_order@[c])@),
            forall|k: int| 0 <= k < driving_times@.len() ==> old(self).terminal_ids().contains((#[trigger] driving_times@[k]).0@)
                && driving_times@[k].1@.len() <= terminal_id_order@.len(),
        ensures
            final(self).same_but_cache(*old(self)),
            final(self).wf(),
            forall|k: int, c: int, a: int, b: int| #[trigger] gives_time(old(self).terminal_ids(), terminal_id_order@, driving_times@, k, c, a, b)
                ==> final(self).cache().known(a, b) && (a != b ==> final(self).cache().drive(a, b) == driving_times@[k].1@[c]),
    {
        let ghost ids = self.terminal_ids();
        let ghost order = terminal_id_order@;
        let ghost rows = driving_times@;
        let n = self.terminal_mapper.len();
        let mut data: Vec<Vec<Option<NonNegativeTimeDelta>>> = Vec::new();
        let mut a: usize = 0;
        while a < n
            invariant
                self.wf(),
                ids == self.terminal_ids(),
                order == terminal_id_order@,
                rows == driving_times@,
                n == ids.len(),
                names_distinct(order_names(order)),
                names_distinct(row_names(rows)),
                forall|c: int| 0 <= c < order.len() ==> ids.contains((#[trigger] order[c])@),
                forall|k: int| 0 <= k < rows.len() ==> ids.contains((#[trigger] rows[k]).0@) && rows[k].1@.len() <= order.len(),
                a <= n,
                data@.len() == a,
                forall|x: int| 0 <= x < a ==> (#[trigger] data@[x])@.len() == n,
                forall|k: int, c: int, x: int, b: int| #[trigger] gives_time(ids, order, rows, k, c, x, b) && x < a
                    ==> data@[x]@[b] == Some(rows[k].1@[c]),
            decreases n - a,
        {
            let name = match self.terminal_mapper.map(&Terminal(a)) {
                Some(s) => s,
                None => String::new(),
            };
            let mut row: Vec<Option<NonNegativeTimeDelta>> = Vec::new();
            let mut b: usize = 0;
            while b < n
                invariant
                    b <= n,
                    row@.len() == b,
                decreases n - b,
            {
                row.push(None);
                b = b + 1;
            }
            let mut k: usize = 0;
            while k < driving_times.len()
                invariant
                    self.wf(),
                    ids == self.terminal_ids(),
                    order == terminal_id_order@,
                    rows == driving_times@,
                    n == ids.len(),
                    a < n,
                    name@ == ids[a as int],
                    names_distinct(order_names(order)),
                    names_distinct(row_names(rows)),
                    forall|c: int| 0 <= c < order.len() ==> ids.contains((#[trigger] order[c])@),
                    forall|k2: int| 0 <= k2 < rows.len() ==> ids.contains((#[trigger] rows[k2]).0@) && rows[k2].1@.len() <= order.len(),
                    k <= rows.len(),
                    row@.len() == n,
                    forall|k2: int, c: int, b2: int| #[trigger] gives_time(ids, order, rows, k2, c, a as int, b2) && k2 < k
                        ==> row@[b2] == Some(rows[k2].1@[c]),
                decreases rows.len() - k,
            {
                if driving_times[k].0 == name {
                    let ghost before = row@;
                    proof {
                        assert forall|k2: int| 0 <= k2 < k implies rows[k2].0@ != name@ by {
                            assert(row_names(rows)[k2] == rows[k2].0@);
                            assert(row_names(rows)[k as int] == rows[k as int].0@);
                        }
                    }
                    let times = &driving_times[k].1;
                    let mut c: usize = 0;
                    while c < times.len()
                        invariant
                            self.wf(),
                            ids == self.terminal_ids(),
                            order == terminal_id_order@,
                            rows == driving_times@,
                            n == ids.len(),
                            a < n,
                            k < rows.len(),
                            times@ == rows[k as int].1@,
                            rows[k as int].0@ == ids[a as int],
                            names_distinct(order_names(order)),
                            forall|c2: int| 0 <= c2 < order.len() ==> ids.contains((#[trigger] order[c2])@),
                            times@.len() <= order.len(),
                            c <= times@.len(),
                            row@.len() == n,
                            forall|c2: int, b2: int| #[trigger] gives_time(ids, order, rows, k as int, c2, a as int, b2) && c2 < c
                                ==> row@[b2] == Some(times@[c2]),
                            forall|b2: int| 0 <= b2 < n && (forall|c2: int| 0 <= c2 < c ==> !(#[trigger] gives_time(ids, order, rows, k as int, c2, a as int, b2)))
                                ==> row@[b2] == before[b2],
                        decreases times@.len() - c,
                    {
                        let b: Terminal = match self.terminal_mapper.reverse_map(&terminal_id_order[c]) {
                            Some(x) => x,
                            None => {
                                proof {
                                    assert(ids.contains(order[c as int]@));
                                }
                                return;
                            },
                        };
                        let ghost old_row = row@;
                        row[b.0] = Some(times[c]);
                        proof {
                            assert(gives_time(ids, order, rows, k as int, c as int, a as int, b.0 as int));
                            assert forall|c2: int, b2: int| #[trigger] gives_time(ids, order, rows, k as int, c2, a as int, b2) && c2 < c + 1
                                implies row@[b2] == Some(times@[c2]) by {
                                if c2 < c {
                                    if b2 == b.0 {
                                        assert(order_names(order)[c2] == order[c2]@);
                                        assert(order_names(order)[c as int] == order[c as int]@);
                                        assert(false);
                                    } else {
                                        assert(row@[b2] == old_row[b2]);
                                    }
                                } else {
                                    if b2 != b.0 {
                                        assert(ids[b2] == ids[b.0 as int]);
                                        assert(false);
                                    }
                                }
                            }
                            assert forall|b2: int| 0 <= b2 < n && (forall|c2: int| 0 <= c2 < c + 1 ==> !(#[trigger] gives_time(ids, order, rows, k as int, c2, a as int, b2)))
                                implies row@[b2] == before[b2] by {
                                if b2 == b.0 {
                                    assert(gives_time(ids, order, rows, k as int, c as int, a as int, b2));
                                }
                            }
                        }
                        c = c + 1;
                    }
                    proof {
                        assert forall|k2: int, c2: int, b2: int| #[trigger] gives_time(ids, order, rows, k2, c2, a as int, b2) && k2 < k + 1
                            implies row@[b2] == Some(rows[k2].1@[c2]) by {
                            if k2 < k {
                                assert(rows[k2].0@ == ids[a as int]);
                            }
                        }
                    }
                } else {
                    proof {
                        assert forall|k2: int, c2: int, b2: int| #[trigger] gives_time(ids, order, rows, k2, c2, a as int, b2) && k2 < k + 1
                            implies row@[b2] == Some(rows[k2].1@[c2]) by {
                            if k2 == k {
                                assert(rows[k2].0@ == name@);
                            }
                        }
                    }
                }
                k = k + 1;
            }
            data.push(row);
            a = a + 1;
        }
        let ghost before = *self;
        self.driving_times_cache = DrivingTimesCache::from_map(data);
        proof {
            assert forall|k: int, c: int, x: int, b: int| #[trigger] gives_time(ids, order, rows, k, c, x, b)
                implies self.cache().known(x, b) && (x != b ==> self.cache().drive(x, b) == rows[k].1@[c]) by {
                assert(self.cache()@[x] == data@[x]@);
            }
        }
    }
}

impl ScheduleGenerator {
    /// Replaces the driving times; see `ScheduleProblem::set_driving_times`.
    pub fn set_driving_times(&mut self, terminal_id_order: &Vec<String>, driving_times: &Vec<(String, Vec<NonNegativeTimeDelta>)>)
        requires
            old(self).problem().wf(),
            names_distinct(order_names(terminal_id_order@)),
            names_distinct(row_names(driving_times@)),
            forall|c: int| 0 <= c < terminal_id_order@.len() ==> old(self).problem().terminal_ids().contains((#[trigger] terminal_id_order@[c])@),
            forall|k: int| 0 <= k < driving_times@.len() ==> old(self).problem().terminal_ids().contains((#[trigger] driving_times@[k]).0@)
                && driving_times@[k].1@.len() <= terminal_id_order@.len(),
        ensures
            final(self).problem().same_but_cache(old(self).problem()),
            final(self).problem().wf(),
            forall|k: int, c: int, a: int, b: int| #[trigger] gives_time(old(self).problem().terminal_ids(), terminal_id_order@, driving_times@, k, c, a, b)
                ==> final(self).problem().cache().known(a, b) && (a != b ==> final(self).problem().cache().drive(a, b) == driving_times@[k].1@[c]),
    {
        self.problem.set_driving_times(terminal_id_order, driving_times);
    }
}

/// One flattened event of a schedule: (truck, time, terminal, cargo, picked up).
pub type Event = (int, Time, int, int, bool);

pub open spec fn pickup_events(t: int, cp: CheckpointModel) -> Seq<Event> {
    cp.pickup_cargo.map_values(|c: Cargo| (t, cp.time, cp.terminal.0 as int, c.0 as int, true))
}

pub open spec fn dropoff_events(t: int, cp: CheckpointModel) -> Seq<Event> {
    cp.dropoff_cargo.map_values(|c: Cargo| (t, cp.time, cp.terminal.0 as int, c.0 as int, false))
}

/// The events of the first `n` checkpoints of truck `t`: at each, its pickups then its dropoffs.
pub open spec fn truck_events(t: int, cps: Seq<CheckpointModel>, n: int) -> Seq<Event>
    decreases n,
{
    if n <= 0 {
        Seq::empty()
    } else {
        truck_events(t, cps, n - 1) + pickup_events(t, cps[n - 1]) + dropoff_events(t, cps[n - 1])
    }
}

/// The events of the first `n` trucks, truck by truck.
pub open spec fn schedule_events(s: ScheduleModel, n: int) -> Seq<Event>
    decreases n,
{
    if n <= 0 {
        Seq::empty()
    } else {
        schedule_events(s, n - 1) + truck_events(n - 1, s.checkpoints[n - 1], s.checkpoints[n - 1].len() as int)
    }
}

impl ScheduleProblem {
    /// An event written with external ids.
    pub open spec fn named_event(&self, r: (String, Time, String, String, bool), e: Event) -> bool {
        &&& r.0@ == self.truck_ids()[e.0]
        &&& r.1 == e.1
        &&& r.2@ == self.terminal_ids()[e.2]
        &&& r.3@ == self.cargo_ids()[e.3]
        &&& r.4 == e.4
    }
}

impl Schedule {
    /// The schedule as a list of (truck, time, terminal, cargo, picked up) with
    /// external ids: for each truck and each of its checkpoints in order, one
    /// entry per pickup, then one per dropoff.
    pub fn to_list_of_tuples(&self, schedule_generator: &ScheduleGenerator) -> (r: Vec<(String, Time, String, String, bool)>)
        requires
            schedule_generator.problem().wf(),
            schedule_generator.problem().schedule_wf(self@),
        ensures
            ({
                let ev = schedule_events(self@, self@.checkpoints.len() as int);
                &&& r@.len() == ev.len()
                &&& forall|m: int| 0 <= m < ev.len() ==> schedule_generator.problem().named_event(#[trigger] r@[m], ev[m])
            }),
    {
        let g = schedule_generator.get_problem();
        let mut out: Vec<(String, Time, String, String, bool)> = Vec::new();
        let ghost s = self@;
        proof {
            self.lemma_view();
        }
        let n = self.truck_checkpoints.len();
        let mut t: usize = 0;
        while t < n
            invariant
                g.wf(),
                g.schedule_wf(s),
                s == self@,
                n == s.checkpoints.len(),
                n == self.truck_checkpoints@.len(),
                forall|u: int| 0 <= u < n ==> #[trigger] s.checkpoints[u] == cps_view(self.truck_checkpoints@[u]@),
                t <= n,
                out@.len() == schedule_events(s, t as int).len(),
                forall|m: int| 0 <= m < out@.len() ==> g.named_event(#[trigger] out@[m], schedule_events(s, t as int)[m]),
            decreases n - t,
        {
            let cps = &self.truck_checkpoints[t];
            let ghost v = s.checkpoints[t as int];
            let truck_id = match g.truck_name(Truck(t)) {
                Some(x) => x,
                None => String::new(),
            };
            let ghost base = schedule_events(s, t as int);
            let mut k: usize = 0;
            while k < cps.len()
                invariant
                    g.wf(),
                    g.truck_wf(t as int, v),
                    v == cps_view(cps@),
                    t < n,
                    n == g.trucks().len(),
                    n == g.truck_ids().len(),
                    truck_id@ == g.truck_ids()[t as int],
                    k <= cps@.len(),
                    out@.len() == (base + truck_events(t as int, v, k as int)).len(),
                    forall|m: int| 0 <= m < out@.len() ==> g.named_event(#[trigger] out@[m], (base + truck_events(t as int, v, k as int))[m]),
                decreases cps@.len() - k,
            {
                let cp = &cps[k];
                proof {
                    assert(v[k as int] == cp@);
                    assert(g.checkpoint_ok(g.trucks()[t as int], v, k as int));
                }
                let terminal_id = match g.terminal_name(cp.terminal) {
                    Some(x) => x,
                    None => String::new(),
                };
                let ghost e0 = base + truck_events(t as int, v, k as int);
                let ghost pick = pickup_events(t as int, cp@);
                let ghost drop = dropoff_events(t as int, cp@);
                let mut i: usize = 0;
                while i < cp.pickup_cargo.len()
                    invariant
                        g.wf(),
                        g.checkpoint_ok(g.trucks()[t as int], v, k as int),
                        v[k as int] == cp@,
                        pick == pickup_events(t as int, cp@),
                        truck_id@ == g.truck_ids()[t as int],
                        terminal_id@ == g.terminal_ids()[cp.terminal.0 as int],
                        i <= cp.pickup_cargo@.len(),
                        out@.len() == (e0 + pick.take(i as int)).len(),
                        forall|m: int| 0 <= m < out@.len() ==> g.named_event(#[trigger] out@[m], (e0 + pick.take(i as int))[m]),
                    decreases cp.pickup_cargo@.len() - i,
                {
                    let c = cp.pickup_cargo[i];
                    let cargo_id = match g.cargo_name(c) {
                        Some(x) => x,
                        None => String::new(),
                    };
                    let ghost old_out = out@;
                    out.push((truck_id.clone(), cp.time, terminal_id.clone(), cargo_id, true));
                    proof {
                        assert(v[k as int].pickup_cargo[i as int] == c);
                        assert((e0 + pick.take(i + 1)) =~= (e0 + pick.take(i as int)).push(pick[i as int]));
                        assert forall|m: int| 0 <= m < out@.len() implies g.named_event(#[trigger] out@[m], (e0 + pick.take(i + 1))[m]) by {
                            if m < old_out.len() {
                                assert(out@[m] == old_out[m]);
                            }
                        }
                    }
                    i = i + 1;
                }
                let ghost e1 = e0 + pick;
                proof {
                    assert(pick.take(pick.len() as int) =~= pick);
                }
                let mut j: usize = 0;
                while j < cp.dropoff_cargo.len()
                    invariant
                        g.wf(),
                        g.checkpoint_ok(g.trucks()[t as int], v, k as int),
                        v[k as int] == cp@,
                        drop == dropoff_events(t as int, cp@),
                        truck_id@ == g.truck_ids()[t as int],
                        terminal_id@ == g.terminal_ids()[cp.terminal.0 as int],
                        j <= cp.dropoff_cargo@.len(),
                        out@.len() == (e1 + drop.take(j as int)).len(),
                        forall|m: int| 0 <= m < out@.len() ==> g.named_event(#[trigger] out@[m], (e1 + drop.take(j as int))[m]),
                    decreases cp.dropoff_cargo@.len() - j,
                {
                    let c = cp.dropoff_cargo[j];
                    let cargo_id = match g.cargo_name(c) {
                        Some(x) => x,
                        None => String::new(),
                    };
                    let ghost old_out = out@;
                    out.push((truck_id.clone(), cp.time, terminal_id.clone(), cargo_id, false));
                    proof {
                        assert(v[k as int].dropoff_cargo[j as int] == c);
                        assert((e1 + drop.take(j + 1)) =~= (e1 + drop.take(j as int)).push(drop[j as int]));
                        assert forall|m: int| 0 <= m < out@.len() implies g.named_event(#[trigger] out@[m], (e1 + drop.take(j + 1))[m]) by {
                            if m < old_out.len() {
                                assert(out@[m] == old_out[m]);
                            }
                        }
                    }
                    j = j + 1;
                }
                proof {
                    assert(drop.take(drop.len() as int) =~= drop);
                    assert(base + truck_events(t as int, v, k + 1) =~= e1 + drop);
                }
                k = k + 1;
            }
            proof {
                assert(schedule_events(s, t + 1) =~= base + truck_events(t as int, v, v.len() as int));
            }
            t = t + 1;
        }
        out
    }
}

/// Cargo `c` is in the pickup list of checkpoint `k` of truck `u`.
pub open spec fn in_pickup(s: ScheduleModel, c: int, u: int, k: int) -> bool {
    0 <= c <= usize::MAX && 0 <= u < s.checkpoints.len() && 0 <= k < s.checkpoints[u].len() && s.checkpoints[u][k].pickup_cargo.contains(Cargo(c as usize))
}

/// Cargo `c` is in the dropoff list of checkpoint `k` of truck `u`.
pub open spec fn in_dropoff(s: ScheduleModel, c: int, u: int, k: int) -> bool {
    0 <= c <= usize::MAX && 0 <= u < s.checkpoints.len() && 0 <= k < s.checkpoints[u].len() && s.checkpoints[u][k].dropoff_cargo.contains(Cargo(c as usize))
}

impl ScheduleProblem {
    /// Cargo `c` is picked up at checkpoint `i` of truck `t` and dropped off at
    /// the later checkpoint `j`, at its own terminals and inside its windows,
    /// and no other checkpoint of any truck mentions it.
    pub open spec fn placed(&self, s: ScheduleModel, c: int, t: int, i: int, j: int) -> bool {
        &&& 0 <= t < s.checkpoints.len()
        &&& 0 <= i < j < s.checkpoints[t].len()
        &&& forall|u: int, k: int| #[trigger] in_pickup(s, c, u, k) <==> (u == t && k == i)
        &&& forall|u: int, k: int| #[trigger] in_dropoff(s, c, u, k) <==> (u == t && k == j)
        &&& s.checkpoints[t][i].terminal == self.bookings()[c].from
        &&& s.checkpoints[t][j].terminal == self.bookings()[c].to
        &&& self.pickup_windows()[c].contains(s.checkpoints[t][i].time as int)
        &&& self.dropoff_windows()[c].contains(s.checkpoints[t][j].time as int)
    }

    /// A scheduled cargo is placed on its truck; an unscheduled one is nowhere.
    pub open spec fn cargo_ok(&self, s: ScheduleModel, c: int) -> bool {
        if s.cargo_truck[c].is_some() {
            exists|i: int, j: int| self.placed(s, c, s.cargo_truck[c].unwrap().0 as int, i, j)
        } else {
            forall|u: int, k: int| #![trigger in_pickup(s, c, u, k)] #![trigger in_dropoff(s, c, u, k)]
                !in_pickup(s, c, u, k) && !in_dropoff(s, c, u, k)
        }
    }

    /// Only the placement of cargo `c0` may differ between `s` and `s2`, on the
    /// same routes; a checkpoint whose time changed suits the windows of all its cargo.
    pub open spec fn frame(&self, s: ScheduleModel, s2: ScheduleModel, c0: int) -> bool {
        &&& s2.checkpoints.len() == s.checkpoints.len()
        &&& s2.cargo_truck.len() == s.cargo_truck.len()
        &&& forall|c: int| 0 <= c < s.cargo_truck.len() && c != c0 ==> #[trigger] s2.cargo_truck[c] == s.cargo_truck[c]
        &&& forall|u: int| 0 <= u < s.checkpoints.len() ==> (#[trigger] s2.checkpoints[u]).len() == s.checkpoints[u].len()
        &&& forall|u: int, k: int| 0 <= u < s.checkpoints.len() && 0 <= k < s.checkpoints[u].len()
            ==> (#[trigger] s2.checkpoints[u][k]).terminal == s.checkpoints[u][k].terminal
        &&& forall|c: int, u: int, k: int| c != c0 ==> (#[trigger] in_pickup(s2, c, u, k) <==> in_pickup(s, c, u, k))
        &&& forall|c: int, u: int, k: int| c != c0 ==> (#[trigger] in_dropoff(s2, c, u, k) <==> in_dropoff(s, c, u, k))
        &&& forall|c: int, u: int, k: int| #[trigger] in_pickup(s2, c, u, k) && s2.checkpoints[u][k].time != s.checkpoints[u][k].time
            ==> self.pickup_windows()[c].contains(s2.checkpoints[u][k].time as int)
        &&& forall|c: int, u: int, k: int| #[trigger] in_dropoff(s2, c, u, k) && s2.checkpoints[u][k].time != s.checkpoints[u][k].time
            ==> self.dropoff_windows()[c].contains(s2.checkpoints[u][k].time as int)
    }

    /// Placements other than that of `c0` survive a change within the frame.
    proof fn lemma_frame(&self, s: ScheduleModel, s2: ScheduleModel, c0: int, c: int)
        requires
            self.frame(s, s2, c0),
            0 <= c < s.cargo_truck.len(),
            c != c0,
            self.cargo_ok(s, c),
        ensures
            self.cargo_ok(s2, c),
    {
        assert(s2.cargo_truck[c] == s.cargo_truck[c]);
        match s.cargo_truck[c] {
            None => {
                assert forall|u: int, k: int| #![trigger in_pickup(s2, c, u, k)] #![trigger in_dropoff(s2, c, u, k)] !in_pickup(s2, c, u, k) && !in_dropoff(s2, c, u, k) by {
                    assert(!in_pickup(s, c, u, k) && !in_dropoff(s, c, u, k));
                }
            },
            Some(t) => {
                let (i, j) = choose|i: int, j: int| self.placed(s, c, t.0 as int, i, j);
                let tt = t.0 as int;
                assert(in_pickup(s, c, tt, i));
                assert(in_dropoff(s, c, tt, j));
                assert(in_pickup(s2, c, tt, i));
                assert(in_dropoff(s2, c, tt, j));
                assert(s2.checkpoints[tt][i].terminal == s.checkpoints[tt][i].terminal);
                assert(s2.checkpoints[tt][j].terminal == s.checkpoints[tt][j].terminal);
                assert(self.placed(s2, c, tt, i, j));
            },
        }
    }
}

/// Index `k` of truck `u` before an insertion at position `p` of truck `tr`, after it.
pub open spec fn shifted(tr: int, p: int, u: int, k: int) -> int {
    if u == tr && k >= p {
        k + 1
    } else {
        k
    }
}

impl ScheduleProblem {
    /// Inserting a checkpoint with no cargo at position `p` of truck `tr` moves
    /// every placement along with the checkpoints, and creates or destroys none.
    proof fn lemma_cargo_insert(&self, s: ScheduleModel, s2: ScheduleModel, tr: int, p: int, x: CheckpointModel, c: int)
        requires
            0 <= tr < s.checkpoints.len(),
            0 <= p <= s.checkpoints[tr].len(),
            x.pickup_cargo.len() == 0,
            x.dropoff_cargo.len() == 0,
            s2.checkpoints == s.checkpoints.update(tr, s.checkpoints[tr].insert(p, x)),
            s2.cargo_truck == s.cargo_truck,
            0 <= c < s.cargo_truck.len(),
        ensures
            self.cargo_ok(s, c) <==> self.cargo_ok(s2, c),
    {
        let ns = s.checkpoints[tr].insert(p, x);
        assert forall|u: int, k: int| #[trigger] in_pickup(s, c, u, k) <==> in_pickup(s2, c, u, shifted(tr, p, u, k)) by {
            if u == tr && 0 <= k < s.checkpoints[tr].len() {
                if k >= p {
                    assert(ns[k + 1] == s.checkpoints[tr][k]);
                } else {
                    assert(ns[k] == s.checkpoints[tr][k]);
                }
            }
        }
        assert forall|u: int, k: int| #[trigger] in_dropoff(s, c, u, k) <==> in_dropoff(s2, c, u, shifted(tr, p, u, k)) by {
            if u == tr && 0 <= k < s.checkpoints[tr].len() {
                if k >= p {
                    assert(ns[k + 1] == s.checkpoints[tr][k]);
                } else {
                    assert(ns[k] == s.checkpoints[tr][k]);
                }
            }
        }
        assert forall|u: int, k: int| #[trigger] in_pickup(s2, c, u, k) ==> (u != tr || k != p) && in_pickup(s, c, u, if u == tr && k > p { k - 1 } else { k }) by {
            if in_pickup(s2, c, u, k) && u == tr {
                if k == p {
                    assert(ns[p] == x);
                } else if k > p {
                    assert(ns[k] == s.checkpoints[tr][k - 1]);
                } else {
                    assert(ns[k] == s.checkpoints[tr][k]);
                }
            }
        }
        assert forall|u: int, k: int| #[trigger] in_dropoff(s2, c, u, k) ==> (u != tr || k != p) && in_dropoff(s, c, u, if u == tr && k > p { k - 1 } else { k }) by {
            if in_dropoff(s2, c, u, k) && u == tr {
                if k == p {
                    assert(ns[p] == x);
                } else if k > p {
                    assert(ns[k] == s.checkpoints[tr][k - 1]);
                } else {
                    assert(ns[k] == s.checkpoints[tr][k]);
                }
            }
        }
        match s.cargo_truck[c] {
            None => {
                if self.cargo_ok(s, c) {
                    assert forall|u: int, k: int| #![trigger in_pickup(s2, c, u, k)] #![trigger in_dropoff(s2, c, u, k)]
                        !in_pickup(s2, c, u, k) && !in_dropoff(s2, c, u, k) by {
                        let k0 = if u == tr && k > p { k - 1 } else { k };
                        assert(!in_pickup(s, c, u, k0) && !in_dropoff(s, c, u, k0));
                    }
                }
                if self.cargo_ok(s2, c) {
                    assert forall|u: int, k: int| #![trigger in_pickup(s, c, u, k)] #![trigger in_dropoff(s, c, u, k)]
                        !in_pickup(s, c, u, k) && !in_dropoff(s, c, u, k) by {
                        let k2 = shifted(tr, p, u, k);
                        assert(!in_pickup(s2, c, u, k2) && !in_dropoff(s2, c, u, k2));
                    }
                }
            },
            Some(t) => {
                let tt = t.0 as int;
                if self.cargo_ok(s, c) {
                    let (i, j) = choose|i: int, j: int| self.placed(s, c, tt, i, j);
                    let i2 = shifted(tr, p, tt, i);
                    let j2 = shifted(tr, p, tt, j);
                    assert(in_pickup(s, c, tt, i));
                    assert(in_dropoff(s, c, tt, j));
                    assert(in_pickup(s2, c, tt, i2));
                    assert(in_dropoff(s2, c, tt, j2));
                    assert forall|u: int, k: int| #[trigger] in_pickup(s2, c, u, k) <==> (u == tt && k == i2) by {
                        if in_pickup(s2, c, u, k) {
                            let k0 = if u == tr && k > p { k - 1 } else { k };
                            assert(in_pickup(s, c, u, k0));
                        }
                    }
                    assert forall|u: int, k: int| #[trigger] in_dropoff(s2, c, u, k) <==> (u == tt && k == j2) by {
                        if in_dropoff(s2, c, u, k) {
                            let k0 = if u == tr && k > p { k - 1 } else { k };
                            assert(in_dropoff(s, c, u, k0));
                        }
                    }
                    if tt == tr {
                        if i >= p {
                            assert(ns[i + 1] == s.checkpoints[tr][i]);
                        } else {
                            assert(ns[i] == s.checkpoints[tr][i]);
                        }
                        if j >= p {
                            assert(ns[j + 1] == s.checkpoints[tr][j]);
                        } else {
                            assert(ns[j] == s.checkpoints[tr][j]);
                        }
                    }
                    assert(self.placed(s2, c, tt, i2, j2));
                }
                if self.cargo_ok(s2, c) {
                    let (i2, j2) = choose|i: int, j: int| self.placed(s2, c, tt, i, j);
                    assert(in_pickup(s2, c, tt, i2));
                    assert(in_dropoff(s2, c, tt, j2));
                    let i = if tt == tr && i2 > p { i2 - 1 } else { i2 };
                    let j = if tt == tr && j2 > p { j2 - 1 } else { j2 };
                    assert(in_pickup(s, c, tt, i));
                    assert(in_dropoff(s, c, tt, j));
                    assert forall|u: int, k: int| #[trigger] in_pickup(s, c, u, k) <==> (u == tt && k == i) by {
                        if in_pickup(s, c, u, k) {
                            assert(in_pickup(s2, c, u, shifted(tr, p, u, k)));
                        }
                    }
                    assert forall|u: int, k: int| #[trigger] in_dropoff(s, c, u, k) <==> (u == tt && k == j) by {
                        if in_dropoff(s, c, u, k) {
                            assert(in_dropoff(s2, c, u, shifted(tr, p, u, k)));
                        }
                    }
                    if tt == tr {
                        if i2 > p {
                            assert(ns[i2] == s.checkpoints[tr][i]);
                        } else {
                            assert(ns[i2] == s.checkpoints[tr][i]);
                        }
                        if j2 > p {
                            assert(ns[j2] == s.checkpoints[tr][j]);
                        } else {
                            assert(ns[j2] == s.checkpoints[tr][j]);
                        }
                    }
                    assert(self.placed(s, c, tt, i, j));
                }
            },
        }
    }
}

impl ScheduleProblem {
    /// Along every truck's route in a valid schedule (every schedule that
    /// `empty_schedule` and the neighbour search produce): checkpoint times
    /// strictly increase; no checkpoint repeats the terminal before it, the
    /// starting terminal included; each leg can be driven in the time between
    /// its ends, the first one from the start of the planning period; and the
    /// capacity left never exceeds the truck's.
    pub proof fn lemma_route_invariants(&self, s: ScheduleModel)
        requires
            self.wf(),
            self.schedule_wf(s),
        ensures
            forall|t: int, a: int, b: int| 0 <= t < s.checkpoints.len() && 0 <= a < b < s.checkpoints[t].len()
                ==> #[trigger] s.checkpoints[t][a].time < #[trigger] s.checkpoints[t][b].time,
            forall|t: int, k: int| #![trigger s.checkpoints[t][k]] 0 <= t < s.checkpoints.len() && 0 <= k < s.checkpoints[t].len() ==> {
                let cps = s.checkpoints[t];
                let prev = prev_terminal(self.trucks()[t].starting_terminal, cps, k);
                &&& cps[k].terminal != prev
                &&& self.prev_time(cps, k) + self.drive(prev, cps[k].terminal) <= cps[k].time
                &&& cps[k].available_teu <= self.trucks()[t].max_teu
                &&& cps[k].available_weight_kg <= self.trucks()[t].max_weight_kg
            },
    {
        assert forall|t: int, a: int, b: int| 0 <= t < s.checkpoints.len() && 0 <= a < b < s.checkpoints[t].len()
            implies #[trigger] s.checkpoints[t][a].time < #[trigger] s.checkpoints[t][b].time by {
            assert(self.truck_wf(t, s.checkpoints[t]));
            self.lemma_sorted_from(t, s.checkpoints[t], a, b);
        }
        assert forall|t: int, k: int| #![trigger s.checkpoints[t][k]] 0 <= t < s.checkpoints.len() && 0 <= k < s.checkpoints[t].len() implies {
            let cps = s.checkpoints[t];
            let prev = prev_terminal(self.trucks()[t].starting_terminal, cps, k);
            &&& cps[k].terminal != prev
            &&& self.prev_time(cps, k) + self.drive(prev, cps[k].terminal) <= cps[k].time
            &&& cps[k].available_teu <= self.trucks()[t].max_teu
            &&& cps[k].available_weight_kg <= self.trucks()[t].max_weight_kg
        } by {
            assert(self.truck_wf(t, s.checkpoints[t]));
            assert(self.checkpoint_ok(self.trucks()[t], s.checkpoints[t], k));
        }
    }

    /// In every valid schedule, a cargo is scheduled on truck `t` exactly when
    /// one checkpoint of `t` picks it up, a strictly later one drops it off, and
    /// no other checkpoint of any truck mentions it; the pickup lies in its
    /// effective pickup window at its pickup terminal, the dropoff in its
    /// effective dropoff window at its dropoff terminal.
    pub proof fn lemma_cargo_placement(&self, s: ScheduleModel, c: int)
        requires
            self.wf(),
            self.schedule_wf(s),
            0 <= c < self.bookings().len(),
        ensures
            s.cargo_truck[c] matches Some(t) ==> exists|i: int, j: int| self.placed(s, c, t.0 as int, i, j),
            s.cargo_truck[c] is None ==> forall|u: int, k: int| #![trigger in_pickup(s, c, u, k)] #![trigger in_dropoff(s, c, u, k)]
                !in_pickup(s, c, u, k) && !in_dropoff(s, c, u, k),
    {
        assert(self.cargo_ok(s, c));
    }

    /// In every valid schedule, the capacity left after each checkpoint is the
    /// truck's maximum less the size of the cargo it carries from there on:
    /// picked up at or before that checkpoint and dropped off after it.
    pub proof fn lemma_capacity_matches_load(&self, s: ScheduleModel)
        requires
            self.wf(),
            self.schedule_wf(s),
        ensures
            forall|t: int, k: int| 0 <= t < s.checkpoints.len() && 0 <= k < s.checkpoints[t].len() ==> {
                &&& (#[trigger] s.checkpoints[t][k]).available_teu + self.load_teu(s, t, k, self.bookings().len() as int)
                    == self.trucks()[t].max_teu
                &&& s.checkpoints[t][k].available_weight_kg + self.load_weight(s, t, k, self.bookings().len() as int)
                    == self.trucks()[t].max_weight_kg
            },
    {
    }

    /// In every valid schedule, each truck's cached driving time equals the sum
    /// of the driving times along its route, starting from its starting terminal.
    pub proof fn lemma_driving_times_are_sums(&self, s: ScheduleModel)
        requires
            self.wf(),
            self.schedule_wf(s),
        ensures
            forall|t: int| 0 <= t < s.driving_times.len() ==> #[trigger] s.driving_times[t] == self.legs(
                self.trucks()[t].starting_terminal,
                s.checkpoints[t],
                s.checkpoints[t].len() as int,
            ),
    {
    }
}

/// `s2` is `s` with checkpoint `x`, which has no cargo, inserted at position
/// `p` of truck `t`; nothing else changes but the cached driving times.
pub open spec fn checkpoint_inserted(s: ScheduleModel, s2: ScheduleModel, t: int, p: int, x: CheckpointModel) -> bool {
    &&& 0 <= t < s.checkpoints.len()
    &&& 0 <= p <= s.checkpoints[t].len()
    &&& x.pickup_cargo.len() == 0
    &&& x.dropoff_cargo.len() == 0
    &&& s2.checkpoints == s.checkpoints.update(t, s.checkpoints[t].insert(p, x))
    &&& s2.cargo_truck == s.cargo_truck
}

/// `s2` is `s` with checkpoint `k` of truck `t`, which has no cargo, removed;
/// nothing else changes but the cached driving times.
pub open spec fn checkpoint_removed(s: ScheduleModel, s2: ScheduleModel, t: int, k: int) -> bool {
    &&& 0 <= t < s.checkpoints.len()
    &&& 0 <= k < s.checkpoints[t].len()
    &&& s.checkpoints[t][k].pickup_cargo.len() == 0
    &&& s.checkpoints[t][k].dropoff_cargo.len() == 0
    &&& s2.checkpoints == s.checkpoints.update(t, s.checkpoints[t].remove(k))
    &&& s2.cargo_truck == s.cargo_truck
}

/// `s2` is `s` with a checkpoint without cargo inserted somewhere.
pub open spec fn some_checkpoint_inserted(s: ScheduleModel, s2: ScheduleModel) -> bool {
    exists|t: int, p: int, x: CheckpointModel| #[trigger] checkpoint_inserted(s, s2, t, p, x)
}

impl ScheduleProblem {
    /// Terminal `y` is where some cargo unscheduled in `s` is picked up or dropped off.
    pub open spec fn terminal_of_unscheduled(&self, s: ScheduleModel, y: int) -> bool {
        exists|c: int| 0 <= c < self.bookings().len() && (#[trigger] s.cargo_truck[c]) is None && (self.bookings()[c].from.0
            == y || self.bookings()[c].to.0 == y)
    }

    /// Checkpoint `x`, inserted at position `p` of truck `t` of `s`, stands at a
    /// terminal of some unscheduled cargo other than those of its neighbours,
    /// strictly after its predecessor, leaving time to drive in and strictly
    /// more than the time to drive out, inside the planning period, and keeps
    /// the capacity left before it (the truck's maxima at the start).
    pub open spec fn added_checkpoint_fits(&self, s: ScheduleModel, t: int, p: int, x: CheckpointModel) -> bool {
        let cps = s.checkpoints[t];
        let td = self.trucks()[t];
        let prev = prev_terminal(td.starting_terminal, cps, p);
        &&& self.terminal_of_unscheduled(s, x.terminal.0 as int)
        &&& x.terminal != prev
        &&& (p < cps.len() ==> x.terminal != cps[p].terminal)
        &&& self.prev_time(cps, p) + self.drive(prev, x.terminal) <= x.time
        &&& (p > 0 ==> cps[p - 1].time < x.time)
        &&& (p < cps.len() ==> x.time + self.drive(x.terminal, cps[p].terminal) < cps[p].time)
        &&& x.time < self.period().end()
        &&& x.available_teu == (if p > 0 { cps[p - 1].available_teu } else { td.max_teu })
        &&& x.available_weight_kg == (if p > 0 { cps[p - 1].available_weight_kg } else { td.max_weight_kg })
    }

    /// `s2` is `s` with a fitting checkpoint without cargo inserted somewhere.
    pub open spec fn some_fitting_checkpoint_inserted(&self, s: ScheduleModel, s2: ScheduleModel) -> bool {
        exists|t: int, p: int, x: CheckpointModel| #[trigger] checkpoint_inserted(s, s2, t, p, x) && self.added_checkpoint_fits(s, t, p, x)
    }
}

/// `s2` is `s` with a checkpoint without cargo removed.
pub open spec fn some_checkpoint_removed(s: ScheduleModel, s2: ScheduleModel) -> bool {
    exists|t: int, k: int| #[trigger] checkpoint_removed(s, s2, t, k)
}

impl ScheduleProblem {
    /// `s2` is `s` with the delivery of one unscheduled cargo added.
    pub open spec fn some_delivery_added(&self, s: ScheduleModel, s2: ScheduleModel) -> bool {
        exists|c: int, t: int, i: int, j: int| #[trigger] self.delivery_added(s, s2, c, t, i, j)
    }

    /// `s2` is `s` with unscheduled cargo `c` delivered by truck `t` from its
    /// checkpoint `i` to `j`: those two may have moved in time, the route is
    /// otherwise the same, and the capacity between them shrinks by the cargo.
    pub open spec fn delivery_added(&self, s: ScheduleModel, s2: ScheduleModel, c: int, t: int, i: int, j: int) -> bool {
        let b = self.bookings()[c];
        &&& s.cargo_truck[c] is None
        &&& s2.cargo_truck[c] matches Some(tk) && tk.0 == t
        &&& s2.cargo_truck == s.cargo_truck.update(c, s2.cargo_truck[c])
        &&& self.placed(s2, c, t, i, j)
        &&& s2.checkpoints.len() == s.checkpoints.len()
        &&& forall|u: int| 0 <= u < s.checkpoints.len() && u != t ==> #[trigger] s2.checkpoints[u] == s.checkpoints[u]
        &&& s2.checkpoints[t].len() == s.checkpoints[t].len()
        &&& forall|k: int| 0 <= k < s.checkpoints[t].len() ==> {
            &&& (#[trigger] s2.checkpoints[t][k]).terminal == s.checkpoints[t][k].terminal
            &&& (k != i && k != j ==> s2.checkpoints[t][k].time == s.checkpoints[t][k].time)
            &&& s2.checkpoints[t][k].available_teu + (if i <= k < j { b.teu as int } else { 0 }) == s.checkpoints[t][k].available_teu
            &&& s2.checkpoints[t][k].available_weight_kg + (if i <= k < j { b.weight_kg as int } else { 0 })
                == s.checkpoints[t][k].available_weight_kg
            &&& s2.checkpoints[t][k].pickup_cargo == (if k == i {
                s.checkpoints[t][k].pickup_cargo.push(Cargo(c as usize))
            } else {
                s.checkpoints[t][k].pickup_cargo
            })
            &&& s2.checkpoints[t][k].dropoff_cargo == (if k == j {
                s.checkpoints[t][k].dropoff_cargo.push(Cargo(c as usize))
            } else {
                s.checkpoints[t][k].dropoff_cargo
            })
        }
    }
}

impl ScheduleProblem {
    /// Adding a checkpoint and then removing that same checkpoint gives back
    /// the schedule it started from, cached driving times included.
    pub proof fn lemma_add_then_remove_checkpoint(
        &self,
        s0: ScheduleModel,
        s1: ScheduleModel,
        s2: ScheduleModel,
        t: int,
        p: int,
        x: CheckpointModel,
    )
        requires
            self.wf(),
            self.schedule_wf(s0),
            self.schedule_wf(s2),
            checkpoint_inserted(s0, s1, t, p, x),
            checkpoint_removed(s1, s2, t, p),
        ensures
            s2 == s0,
    {
        assert(s1.checkpoints[t] == s0.checkpoints[t].insert(p, x));
        assert(s0.checkpoints[t].insert(p, x).remove(p) =~= s0.checkpoints[t]);
        assert(s2.checkpoints =~= s0.checkpoints);
        assert(s2.driving_times =~= s0.driving_times);
    }

    /// Adding the delivery of cargo `c` and then removing it again leaves the
    /// routes and the cargo assignment as they were and gives every checkpoint
    /// its capacity back; only the times of the pickup and dropoff checkpoints
    /// may have moved.
    pub proof fn lemma_add_then_remove_delivery(
        &self,
        s0: ScheduleModel,
        s1: ScheduleModel,
        s2: ScheduleModel,
        c: int,
        t: int,
        i: int,
        j: int,
    )
        requires
            self.wf(),
            self.schedule_wf(s0),
            0 <= c < self.bookings().len(),
            s0.cargo_truck.len() == self.bookings().len(),
            self.delivery_added(s0, s1, c, t, i, j),
            self.delivery_removed(s1, s2, c),
        ensures
            s2.cargo_truck == s0.cargo_truck,
            s2.checkpoints.len() == s0.checkpoints.len(),
            forall|u: int| 0 <= u < s0.checkpoints.len() && u != t ==> #[trigger] s2.checkpoints[u] == s0.checkpoints[u],
            s2.checkpoints[t].len() == s0.checkpoints[t].len(),
            forall|k: int| 0 <= k < s0.checkpoints[t].len() ==> {
                &&& (#[trigger] s2.checkpoints[t][k]).terminal == s0.checkpoints[t][k].terminal
                &&& s2.checkpoints[t][k].available_teu == s0.checkpoints[t][k].available_teu
                &&& s2.checkpoints[t][k].available_weight_kg == s0.checkpoints[t][k].available_weight_kg
                &&& (k != i && k != j ==> s2.checkpoints[t][k].time == s0.checkpoints[t][k].time)
            },
            forall|k: int, x: Cargo| 0 <= k < s0.checkpoints[t].len() ==> (#[trigger] s2.checkpoints[t][k].pickup_cargo.contains(x)
                <==> s0.checkpoints[t][k].pickup_cargo.contains(x)),
            forall|k: int, x: Cargo| 0 <= k < s0.checkpoints[t].len() ==> (#[trigger] s2.checkpoints[t][k].dropoff_cargo.contains(x)
                <==> s0.checkpoints[t][k].dropoff_cargo.contains(x)),
    {
        assert(s1.cargo_truck[c].unwrap().0 as int == t);
        let (i2, j2) = choose|i2: int, j2: int| #![trigger self.placed(s1, c, t, i2, j2)] self.placed(s1, c, t, i2, j2) && forall|k: int|
            0 <= k < s1.checkpoints[t].len() ==> {
            &&& (#[trigger] s2.checkpoints[t][k]).time == s1.checkpoints[t][k].time
            &&& s2.checkpoints[t][k].terminal == s1.checkpoints[t][k].terminal
            &&& s2.checkpoints[t][k].available_teu == s1.checkpoints[t][k].available_teu + (if i2 <= k < j2 {
                self.bookings()[c].teu as int
            } else {
                0
            })
            &&& s2.checkpoints[t][k].available_weight_kg == s1.checkpoints[t][k].available_weight_kg + (
                if i2 <= k < j2 { self.bookings()[c].weight_kg as int } else { 0 })
        };
        assert(in_pickup(s1, c, t, i));
        assert(in_dropoff(s1, c, t, j));
        assert(i2 == i && j2 == j);
        assert(s2.cargo_truck =~= s0.cargo_truck);
        assert forall|u: int| 0 <= u < s0.checkpoints.len() && u != t implies #[trigger] s2.checkpoints[u] == s0.checkpoints[u] by {
            assert(s1.checkpoints[u] == s0.checkpoints[u]);
        }
        assert forall|k: int| 0 <= k < s0.checkpoints[t].len() implies {
            &&& (#[trigger] s2.checkpoints[t][k]).terminal == s0.checkpoints[t][k].terminal
            &&& s2.checkpoints[t][k].available_teu == s0.checkpoints[t][k].available_teu
            &&& s2.checkpoints[t][k].available_weight_kg == s0.checkpoints[t][k].available_weight_kg
            &&& (k != i && k != j ==> s2.checkpoints[t][k].time == s0.checkpoints[t][k].time)
        } by {
            assert(s1.checkpoints[t][k].terminal == s0.checkpoints[t][k].terminal);
        }
        assert(self.cargo_ok(s0, c));
        assert(!in_pickup(s0, c, t, i) && !in_dropoff(s0, c, t, j));
        assert forall|k: int, x: Cargo| 0 <= k < s0.checkpoints[t].len() implies (#[trigger] s2.checkpoints[t][k].pickup_cargo.contains(x)
            <==> s0.checkpoints[t][k].pickup_cargo.contains(x)) by {
            assert(s1.checkpoints[t][k].pickup_cargo == (if k == i { s0.checkpoints[t][k].pickup_cargo.push(Cargo(c as usize)) } else {
                s0.checkpoints[t][k].pickup_cargo }));
            if k == i {
                let o = s0.checkpoints[t][k].pickup_cargo;
                let op = o.push(Cargo(c as usize));
                if op.contains(x) && x != Cargo(c as usize) {
                    let q = choose|q: int| 0 <= q < op.len() && op[q] == x;
                    assert(o[q] == x);
                }
                if o.contains(x) {
                    let q = choose|q: int| 0 <= q < o.len() && o[q] == x;
                    assert(op[q] == x);
                }
            }
        }
        assert forall|k: int, x: Cargo| 0 <= k < s0.checkpoints[t].len() implies (#[trigger] s2.checkpoints[t][k].dropoff_cargo.contains(x)
            <==> s0.checkpoints[t][k].dropoff_cargo.contains(x)) by {
            assert(s1.checkpoints[t][k].dropoff_cargo == (if k == j { s0.checkpoints[t][k].dropoff_cargo.push(Cargo(c as usize)) } else {
                s0.checkpoints[t][k].dropoff_cargo }));
            if k == j {
                let o = s0.checkpoints[t][k].dropoff_cargo;
                let op = o.push(Cargo(c as usize));
                if op.contains(x) && x != Cargo(c as usize) {
                    let q = choose|q: int| 0 <= q < op.len() && op[q] == x;
                    assert(o[q] == x);
                }
                if o.contains(x) {
                    let q = choose|q: int| 0 <= q < o.len() && o[q] == x;
                    assert(op[q] == x);
                }
            }
        }
    }
}

/// Cargo `c` is on board truck `t` just after its checkpoint `k`: picked up at
/// or before `k` and dropped off after it.
pub open spec fn carried(s: ScheduleModel, c: int, t: int, k: int) -> bool {
    exists|i: int, j: int| i <= k < j && #[trigger] in_pickup(s, c, t, i) && #[trigger] in_dropoff(s, c, t, j)
}

impl ScheduleProblem {
    /// TEU of the first `n` cargo that truck `t` carries just after checkpoint `k`.
    pub open spec fn load_teu(&self, s: ScheduleModel, t: int, k: int, n: int) -> int
        decreases n,
    {
        if n <= 0 {
            0
        } else {
            self.load_teu(s, t, k, n - 1) + if carried(s, n - 1, t, k) { self.bookings()[n - 1].teu as int } else { 0 }
        }
    }

    /// Weight of the first `n` cargo that truck `t` carries just after checkpoint `k`.
    pub open spec fn load_weight(&self, s: ScheduleModel, t: int, k: int, n: int) -> int
        decreases n,
    {
        if n <= 0 {
            0
        } else {
            self.load_weight(s, t, k, n - 1) + if carried(s, n - 1, t, k) { self.bookings()[n - 1].weight_kg as int } else { 0 }
        }
    }

    /// The capacity left at each checkpoint is the truck's maximum less what it
    /// carries just after that checkpoint.
    pub open spec fn loads_ok(&self, s: ScheduleModel) -> bool {
        forall|t: int, k: int| 0 <= t < s.checkpoints.len() && 0 <= k < s.checkpoints[t].len() ==> {
            &&& (#[trigger] s.checkpoints[t][k]).available_teu + self.load_teu(s, t, k, self.bookings().len() as int)
                == self.trucks()[t].max_teu
            &&& s.checkpoints[t][k].available_weight_kg + self.load_weight(s, t, k, self.bookings().len() as int)
                == self.trucks()[t].max_weight_kg
        }
    }

    /// Loads agree where the same cargo is carried.
    proof fn lemma_load_eq(&self, s: ScheduleModel, t: int, k: int, s2: ScheduleModel, t2: int, k2: int, n: int)
        requires
            forall|c: int| 0 <= c < n ==> (#[trigger] carried(s, c, t, k) <==> carried(s2, c, t2, k2)),
        ensures
            self.load_teu(s, t, k, n) == self.load_teu(s2, t2, k2, n),
            self.load_weight(s, t, k, n) == self.load_weight(s2, t2, k2, n),
        decreases n,
    {
        if n > 0 {
            self.lemma_load_eq(s, t, k, s2, t2, k2, n - 1);
            assert(carried(s, n - 1, t, k) <==> carried(s2, n - 1, t2, k2));
        }
    }

    /// Loads that differ in cargo `c0` alone differ by its size.
    proof fn lemma_load_plus(&self, s: ScheduleModel, t: int, k: int, s2: ScheduleModel, t2: int, k2: int, c0: int, n: int)
        requires
            forall|c: int| 0 <= c < n && c != c0 ==> (#[trigger] carried(s, c, t, k) <==> carried(s2, c, t2, k2)),
            0 <= c0 < n,
            !carried(s, c0, t, k),
            carried(s2, c0, t2, k2),
        ensures
            self.load_teu(s2, t2, k2, n) == self.load_teu(s, t, k, n) + self.bookings()[c0].teu,
            self.load_weight(s2, t2, k2, n) == self.load_weight(s, t, k, n) + self.bookings()[c0].weight_kg,
        decreases n,
    {
        if n - 1 == c0 {
            self.lemma_load_eq(s, t, k, s2, t2, k2, n - 1);
        } else {
            self.lemma_load_plus(s, t, k, s2, t2, k2, c0, n - 1);
            assert(carried(s, n - 1, t, k) <==> carried(s2, n - 1, t2, k2));
        }
    }

    /// A cargo on board counts in the load.
    proof fn lemma_load_at_least(&self, s: ScheduleModel, t: int, k: int, c0: int, n: int)
        requires
            0 <= c0 < n,
            carried(s, c0, t, k),
        ensures
            self.load_teu(s, t, k, n) >= self.bookings()[c0].teu,
            self.load_weight(s, t, k, n) >= self.bookings()[c0].weight_kg,
        decreases n,
    {
        self.lemma_load_nonneg(s, t, k, n - 1);
        if n - 1 != c0 {
            self.lemma_load_at_least(s, t, k, c0, n - 1);
        }
    }

    proof fn lemma_load_nonneg(&self, s: ScheduleModel, t: int, k: int, n: int)
        ensures
            self.load_teu(s, t, k, n) >= 0,
            self.load_weight(s, t, k, n) >= 0,
        decreases n,
    {
        if n > 0 {
            self.lemma_load_nonneg(s, t, k, n - 1);
        }
    }

    /// Nothing carried, nothing loaded.
    proof fn lemma_load_zero(&self, s: ScheduleModel, t: int, k: int, n: int)
        requires
            forall|c: int| 0 <= c < n ==> !(#[trigger] carried(s, c, t, k)),
        ensures
            self.load_teu(s, t, k, n) == 0,
            self.load_weight(s, t, k, n) == 0,
        decreases n,
    {
        if n > 0 {
            self.lemma_load_zero(s, t, k, n - 1);
            assert(!carried(s, n - 1, t, k));
        }
    }
}

/// Membership of cargo `c` before and after inserting a checkpoint without
/// cargo at position `p` of truck `tr`.
proof fn lemma_insert_membership(s: ScheduleModel, s2: ScheduleModel, tr: int, p: int, x: CheckpointModel, c: int)
    requires
        0 <= tr < s.checkpoints.len(),
        0 <= p <= s.checkpoints[tr].len(),
        x.pickup_cargo.len() == 0,
        x.dropoff_cargo.len() == 0,
        s2.checkpoints == s.checkpoints.update(tr, s.checkpoints[tr].insert(p, x)),
    ensures
        forall|u2: int, k2: int| #[trigger] in_pickup(s, c, u2, k2) <==> in_pickup(s2, c, u2, shifted(tr, p, u2, k2)),
        forall|u2: int, k2: int| #[trigger] in_dropoff(s, c, u2, k2) <==> in_dropoff(s2, c, u2, shifted(tr, p, u2, k2)),
        forall|u2: int, k2: int| #[trigger] in_pickup(s2, c, u2, k2) ==> (u2 != tr || k2 != p) && in_pickup(s, c, u2, if u2 == tr && k2 > p { k2 - 1 } else { k2 }),
        forall|u2: int, k2: int| #[trigger] in_dropoff(s2, c, u2, k2) ==> (u2 != tr || k2 != p) && in_dropoff(s, c, u2, if u2 == tr && k2 > p { k2 - 1 } else { k2 }),
{
    let ns = s.checkpoints[tr].insert(p, x);
    assert forall|u2: int, k2: int| #[trigger] in_pickup(s, c, u2, k2) <==> in_pickup(s2, c, u2, shifted(tr, p, u2, k2)) by {
        if u2 == tr && 0 <= k2 < s.checkpoints[tr].len() {
            if k2 >= p {
                assert(ns[k2 + 1] == s.checkpoints[tr][k2]);
            } else {
                assert(ns[k2] == s.checkpoints[tr][k2]);
            }
        }
    }
    assert forall|u2: int, k2: int| #[trigger] in_dropoff(s, c, u2, k2) <==> in_dropoff(s2, c, u2, shifted(tr, p, u2, k2)) by {
        if u2 == tr && 0 <= k2 < s.checkpoints[tr].len() {
            if k2 >= p {
                assert(ns[k2 + 1] == s.checkpoints[tr][k2]);
            } else {
                assert(ns[k2] == s.checkpoints[tr][k2]);
            }
        }
    }
    assert forall|u2: int, k2: int| #[trigger] in_pickup(s2, c, u2, k2) ==> (u2 != tr || k2 != p) && in_pickup(s, c, u2, if u2 == tr && k2 > p { k2 - 1 } else { k2 }) by {
        if in_pickup(s2, c, u2, k2) && u2 == tr {
            if k2 == p {
                assert(ns[p] == x);
            } else if k2 > p {
                assert(ns[k2] == s.checkpoints[tr][k2 - 1]);
            } else {
                assert(ns[k2] == s.checkpoints[tr][k2]);
            }
        }
    }
    assert forall|u2: int, k2: int| #[trigger] in_dropoff(s2, c, u2, k2) ==> (u2 != tr || k2 != p) && in_dropoff(s, c, u2, if u2 == tr && k2 > p { k2 - 1 } else { k2 }) by {
        if in_dropoff(s2, c, u2, k2) && u2 == tr {
            if k2 == p {
                assert(ns[p] == x);
            } else if k2 > p {
                assert(ns[k2] == s.checkpoints[tr][k2 - 1]);
            } else {
                assert(ns[k2] == s.checkpoints[tr][k2]);
            }
        }
    }
}

/// Carrying after an insertion of a checkpoint without cargo: unchanged at the
/// old checkpoints, and at the new one as just before it.
#[verifier::rlimit(100)]
proof fn lemma_carried_insert(s: ScheduleModel, s2: ScheduleModel, tr: int, p: int, x: CheckpointModel, c: int, u: int, k: int)
    requires
        0 <= tr < s.checkpoints.len(),
        0 <= p <= s.checkpoints[tr].len(),
        x.pickup_cargo.len() == 0,
        x.dropoff_cargo.len() == 0,
        s2.checkpoints == s.checkpoints.update(tr, s.checkpoints[tr].insert(p, x)),
    ensures
        carried(s2, c, u, shifted(tr, p, u, k)) <==> carried(s, c, u, k),
        u == tr ==> (carried(s2, c, tr, p) <==> (p > 0 && carried(s, c, tr, p - 1))),
{
    lemma_insert_membership(s, s2, tr, p, x, c);
    let k2 = shifted(tr, p, u, k);
    if carried(s, c, u, k) {
        let (i, j) = choose|i: int, j: int| i <= k < j && #[trigger] in_pickup(s, c, u, i) && #[trigger] in_dropoff(s, c, u, j);
        assert(in_pickup(s2, c, u, shifted(tr, p, u, i)));
        assert(in_dropoff(s2, c, u, shifted(tr, p, u, j)));
    }
    if carried(s2, c, u, k2) {
        let (i2, j2) = choose|i: int, j: int| i <= k2 < j && #[trigger] in_pickup(s2, c, u, i) && #[trigger] in_dropoff(s2, c, u, j);
        let i = if u == tr && i2 > p { i2 - 1 } else { i2 };
        let j = if u == tr && j2 > p { j2 - 1 } else { j2 };
        assert(in_pickup(s, c, u, i));
        assert(in_dropoff(s, c, u, j));
    }
    if u == tr {
        if carried(s2, c, tr, p) {
            let (i2, j2) = choose|i: int, j: int| i <= p < j && #[trigger] in_pickup(s2, c, tr, i) && #[trigger] in_dropoff(s2, c, tr, j);
            let j = j2 - 1;
            assert(in_pickup(s, c, tr, i2));
            assert(in_dropoff(s, c, tr, j));
        }
        if p > 0 && carried(s, c, tr, p - 1) {
            let (i, j) = choose|i: int, j: int| i <= p - 1 < j && #[trigger] in_pickup(s, c, tr, i) && #[trigger] in_dropoff(s, c, tr, j);
            assert(in_pickup(s2, c, tr, shifted(tr, p, tr, i)));
            assert(in_dropoff(s2, c, tr, shifted(tr, p, tr, j)));
        }
    }
}

impl ScheduleProblem {
    /// Two schedules that differ in the placement of cargo `c0` alone, placed
    /// in `s1` from checkpoint `i` to `j` of truck `tr` and nowhere in `s0`:
    /// the loads differ by its size between `i` and `j`.
    proof fn lemma_load_delivery(&self, s0: ScheduleModel, s1: ScheduleModel, c0: int, tr: int, i: int, j: int, t: int, k: int)
        requires
            0 <= c0 < self.bookings().len(),
            forall|c: int, u: int, m: int| c != c0 ==> (#[trigger] in_pickup(s1, c, u, m) <==> in_pickup(s0, c, u, m)),
            forall|c: int, u: int, m: int| c != c0 ==> (#[trigger] in_dropoff(s1, c, u, m) <==> in_dropoff(s0, c, u, m)),
            self.placed(s1, c0, tr, i, j),
            forall|u: int, m: int| #![trigger in_pickup(s0, c0, u, m)] #![trigger in_dropoff(s0, c0, u, m)]
                !in_pickup(s0, c0, u, m) && !in_dropoff(s0, c0, u, m),
        ensures
            self.load_teu(s1, t, k, self.bookings().len() as int) == self.load_teu(s0, t, k, self.bookings().len() as int) + (
                if t == tr && i <= k < j { self.bookings()[c0].teu as int } else { 0 }),
            self.load_weight(s1, t, k, self.bookings().len() as int) == self.load_weight(s0, t, k, self.bookings().len() as int) + (
                if t == tr && i <= k < j { self.bookings()[c0].weight_kg as int } else { 0 }),
    {
        let n = self.bookings().len() as int;
        assert forall|c: int| 0 <= c < n && c != c0 implies (#[trigger] carried(s0, c, t, k) <==> carried(s1, c, t, k)) by {
            if carried(s0, c, t, k) {
                let (a, b) = choose|a: int, b: int| a <= k < b && #[trigger] in_pickup(s0, c, t, a) && #[trigger] in_dropoff(s0, c, t, b);
                assert(in_pickup(s1, c, t, a) && in_dropoff(s1, c, t, b));
            }
            if carried(s1, c, t, k) {
                let (a, b) = choose|a: int, b: int| a <= k < b && #[trigger] in_pickup(s1, c, t, a) && #[trigger] in_dropoff(s1, c, t, b);
                assert(in_pickup(s0, c, t, a) && in_dropoff(s0, c, t, b));
            }
        }
        if carried(s0, c0, t, k) {
            let (a, b) = choose|a: int, b: int| a <= k < b && #[trigger] in_pickup(s0, c0, t, a) && #[trigger] in_dropoff(s0, c0, t, b);
        }
        if carried(s1, c0, t, k) {
            let (a, b) = choose|a: int, b: int| a <= k < b && #[trigger] in_pickup(s1, c0, t, a) && #[trigger] in_dropoff(s1, c0, t, b);
            assert(t == tr && a == i && b == j);
        }
        if t == tr && i <= k < j {
            assert(in_pickup(s1, c0, tr, i) && in_dropoff(s1, c0, tr, j));
            assert(carried(s1, c0, t, k));
            self.lemma_load_plus(s0, t, k, s1, t, k, c0, n);
        } else {
            assert forall|c: int| 0 <= c < n implies (#[trigger] carried(s0, c, t, k) <==> carried(s1, c, t, k)) by {
                if c != c0 {
                    assert(carried(s0, c, t, k) <==> carried(s1, c, t, k));
                }
            }
            self.lemma_load_eq(s0, t, k, s1, t, k, n);
        }
    }
}

} // verus!
