use std::cmp::Ordering;
use vstd::prelude::*;
use vstd::std_specs::cmp::PartialOrdSpecImpl;

verus! {

/// A bound on a number of repetitions: a finite count, or none at all.
#[derive(Debug, PartialEq, Eq, Structural, Ord)]
pub enum Limit {
    At(u64),
    Infinity,
}

impl Limit {
    /// The order of two limits: finite bounds by their counts, and every
    /// finite bound below `Infinity`.
    pub open spec fn order(self, other: Limit) -> Ordering {
        match (self, other) {
            (Limit::At(u), Limit::At(v)) => if u < v {
                Ordering::Less
            } else if u == v {
                Ordering::Equal
            } else {
                Ordering::Greater
            },
            (Limit::At(_), Limit::Infinity) => Ordering::Less,
            (Limit::Infinity, Limit::Infinity) => Ordering::Equal,
            (Limit::Infinity, Limit::At(_)) => Ordering::Greater,
        }
    }

    /// Compares two limits.
    pub fn cmp(&self, other: &Self) -> (result: Ordering)
        ensures
            result == self.order(*other),
    {
        match self {
            Limit::At(u) => match other {
                Limit::At(v) => if *u < *v {
                    Ordering::Less
                } else if *u == *v {
                    Ordering::Equal
                } else {
                    Ordering::Greater
                },
                Limit::Infinity => Ordering::Less,
            },
            Limit::Infinity => match other {
                Limit::Infinity => Ordering::Equal,
                _ => Ordering::Greater,
            },
        }
    }

    /// Whether a finite bound of `count` is less than the limit.
    pub open spec fn above(self, count: u64) -> bool {
        Limit::At(count).order(self) == Ordering::Less
    }

    /// Whether the limit allows more than `count` repetitions.
    pub fn exceeds(&self, count: u64) -> (more: bool)
        ensures
            more == self.above(count),
    {
        match Limit::At(count).cmp(self) {
            Ordering::Less => true,
            _ => false,
        }
    }
}

impl PartialOrd for Limit {
    fn partial_cmp(&self, other: &Self) -> (result: Option<Ordering>) {
        Some(self.cmp(other))
    }
}

impl PartialOrdSpecImpl for Limit {
    open spec fn obeys_partial_cmp_spec() -> bool {
        true
    }

    open spec fn partial_cmp_spec(&self, other: &Self) -> Option<Ordering> {
        Some(self.order(*other))
    }
}

} // verus!
