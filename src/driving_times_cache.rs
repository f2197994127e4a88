use crate::common_types::{NonNegativeTimeDelta, Terminal};
use vstd::prelude::*;

verus! {

/// Driving times between terminals, by terminal index: row `from`, column `to`.
/// A missing entry is a pair that was never given. Driving from a terminal to
/// itself takes no time; `from -> to` may differ from `to -> from`.
pub struct DrivingTimesCache {
    data: Vec<Vec<Option<NonNegativeTimeDelta>>>,
}

impl View for DrivingTimesCache {
    type V = Seq<Seq<Option<NonNegativeTimeDelta>>>;

    closed spec fn view(&self) -> Seq<Seq<Option<NonNegativeTimeDelta>>> {
        self.data@.map_values(|row: Vec<Option<NonNegativeTimeDelta>>| row@)
    }
}

impl DrivingTimesCache {
    /// Whether the driving time from `from` to `to` is known.
    pub open spec fn known(&self, from: int, to: int) -> bool {
        from == to || (0 <= from < self@.len() && 0 <= to < self@[from].len() && self@[from][to].is_some())
    }

    /// The driving time from `from` to `to`, where it is known.
    pub open spec fn drive(&self, from: int, to: int) -> NonNegativeTimeDelta {
        if from == to {
            0
        } else {
            self@[from][to].unwrap()
        }
    }

    /// A cache that knows no pair of distinct terminals.
    pub fn new() -> (r: Self)
        ensures
            r@ == Seq::<Seq<Option<NonNegativeTimeDelta>>>::empty(),
    {
        DrivingTimesCache { data: Vec::new() }
    }

    /// A cache over the given matrix, `map[from][to]`.
    pub fn from_map(map: Vec<Vec<Option<NonNegativeTimeDelta>>>) -> (r: Self)
        ensures
            r@ == map@.map_values(|row: Vec<Option<NonNegativeTimeDelta>>| row@),
    {
        DrivingTimesCache { data: map }
    }

    /// Whether the driving time from `from` to `to` is known.
    pub fn is_known(&self, from: usize, to: usize) -> (r: bool)
        ensures
            r == self.known(from as int, to as int),
    {
        if from == to {
            return true;
        }
        if from >= self.data.len() {
            return false;
        }
        proof {
            assert(self@[from as int] == self.data@[from as int]@);
        }
        to < self.data[from].len() && self.data[from][to].is_some()
    }

    pub fn get_driving_time(&self, from: Terminal, to: Terminal) -> (r: NonNegativeTimeDelta)
        requires
            self.known(from.0 as int, to.0 as int),
        ensures
            r == self.drive(from.0 as int, to.0 as int),
    {
        if from.0 == to.0 {
            return 0;
        }
        match self.data[from.0][to.0] {
            Some(t) => t,
            None => 0,
        }
    }
}

} // verus!
