use crate::depth::RenderZCoordinate;
use std::cmp::Ordering;
use vstd::prelude::*;
use vstd::std_specs::cmp::{PartialEqSpecImpl, PartialOrdSpecImpl};

verus! {

impl PartialEq for RenderZCoordinate {
    /// Two depths are equal when they are the same number.
    fn eq(&self, other: &Self) -> (same: bool) {
        self.is_same_depth(other)
    }
}

impl PartialEqSpecImpl for RenderZCoordinate {
    open spec fn obeys_eq_spec() -> bool {
        true
    }

    open spec fn eq_spec(&self, other: &Self) -> bool {
        self@.same_depth(other@)
    }
}

impl PartialOrd for RenderZCoordinate {
    /// Depths are ordered as numbers.
    fn partial_cmp(&self, other: &Self) -> (order: Option<Ordering>) {
        if self.is_below(other) {
            Some(Ordering::Less)
        } else if other.is_below(self) {
            Some(Ordering::Greater)
        } else {
            Some(Ordering::Equal)
        }
    }
}

impl PartialOrdSpecImpl for RenderZCoordinate {
    open spec fn obeys_partial_cmp_spec() -> bool {
        true
    }

    open spec fn partial_cmp_spec(&self, other: &Self) -> Option<Ordering> {
        if self@.below(other@) {
            Some(Ordering::Less)
        } else if other@.below(self@) {
            Some(Ordering::Greater)
        } else {
            Some(Ordering::Equal)
        }
    }
}

} // verus!
