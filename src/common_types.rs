use vstd::prelude::*;

verus! {

/// Time in seconds.
pub type Time = u64;

/// Non-negative time duration in seconds.
pub type NonNegativeTimeDelta = u64;

// Distinct handle types keep a terminal, a cargo and a truck from being
// mistaken for one another.
#[derive(Clone, Copy, PartialOrd, Ord, PartialEq, Eq, Structural, Debug)]
pub struct Terminal(pub usize);

#[derive(Clone, Copy, PartialOrd, Ord, PartialEq, Eq, Structural, Debug)]
pub struct Cargo(pub usize);

#[derive(Clone, Copy, PartialOrd, Ord, PartialEq, Eq, Structural, Debug)]
pub struct Truck(pub usize);

/// A handle type over a dense integer index.
pub trait IsID: Sized {
    spec fn id(&self) -> usize;

    fn get_id(&self) -> (r: usize)
        ensures
            r == self.id(),
    ;

    fn from_id(id: usize) -> (r: Self)
        ensures
            r.id() == id,
    ;
}

impl IsID for Terminal {
    open spec fn id(&self) -> usize {
        self.0
    }

    fn get_id(&self) -> (r: usize) {
        self.0
    }

    fn from_id(id: usize) -> (r: Self) {
        Terminal(id)
    }
}

impl IsID for Cargo {
    open spec fn id(&self) -> usize {
        self.0
    }

    fn get_id(&self) -> (r: usize) {
        self.0
    }

    fn from_id(id: usize) -> (r: Self) {
        Cargo(id)
    }
}

impl IsID for Truck {
    open spec fn id(&self) -> usize {
        self.0
    }

    fn get_id(&self) -> (r: usize) {
        self.0
    }

    fn from_id(id: usize) -> (r: Self) {
        Truck(id)
    }
}

} // verus!
