//! GPS time.

use crate::binary64::Binary64;
use core::cmp::Ordering;
use vstd::prelude::*;

verus! {

/// A GPS time, ordered as the number that it is.
#[derive(Debug, Clone, Copy)]
pub struct GpsTime(pub Binary64);

impl GpsTime {
    /// Not later than `other`.
    pub open spec fn at_most(self, other: GpsTime) -> bool {
        self.0.at_most(other.0)
    }

    /// Earlier than `other`.
    pub open spec fn below(self, other: GpsTime) -> bool {
        self.0.below(other.0)
    }

    /// Within the window `[start, end]`.
    pub open spec fn within(self, start: GpsTime, end: GpsTime) -> bool {
        start.at_most(self) && self.at_most(end)
    }

    /// The time whose number has this bit pattern.
    pub fn from_bits(bits: u64) -> (r: GpsTime)
        ensures
            r.0.bits == bits,
    {
        GpsTime(Binary64::from_bits(bits))
    }

    /// Whether the time is within the window `[start, end]`.
    pub fn is_within(&self, start: GpsTime, end: GpsTime) -> (r: bool)
        ensures
            r == self.within(start, end),
    {
        start.0.le(&self.0) && self.0.le(&end.0)
    }
}

impl PartialEq for GpsTime {
    fn eq(&self, other: &GpsTime) -> (r: bool) {
        self.0.le(&other.0) && other.0.le(&self.0)
    }
}

impl vstd::std_specs::cmp::PartialEqSpecImpl for GpsTime {
    open spec fn obeys_eq_spec() -> bool {
        true
    }

    open spec fn eq_spec(&self, other: &GpsTime) -> bool {
        self.at_most(*other) && other.at_most(*self)
    }
}

impl PartialOrd for GpsTime {
    fn partial_cmp(&self, other: &GpsTime) -> (r: Option<Ordering>) {
        if self.0.lt(&other.0) {
            Some(Ordering::Less)
        } else if other.0.lt(&self.0) {
            Some(Ordering::Greater)
        } else if self.0.le(&other.0) {
            Some(Ordering::Equal)
        } else {
            None
        }
    }
}

impl vstd::std_specs::cmp::PartialOrdSpecImpl for GpsTime {
    open spec fn obeys_partial_cmp_spec() -> bool {
        true
    }

    open spec fn partial_cmp_spec(&self, other: &GpsTime) -> Option<Ordering> {
        if self.below(*other) {
            Some(Ordering::Less)
        } else if other.below(*self) {
            Some(Ordering::Greater)
        } else if self.at_most(*other) {
            Some(Ordering::Equal)
        } else {
            None
        }
    }
}

} // verus!
