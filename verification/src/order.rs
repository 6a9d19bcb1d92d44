//! The order of codes as the operators `<`, `<=`, `>` and `>=` see it.

use core::cmp::Ordering;
use vstd::prelude::*;
use vstd::std_specs::cmp::PartialOrdSpecImpl;
use crate::sac::SAC;

verus! {

impl PartialOrd for SAC {
    fn partial_cmp(&self, other: &SAC) -> (r: Option<Ordering>) {
        if self.precedes(other) {
            Some(Ordering::Less)
        } else if other.precedes(self) {
            Some(Ordering::Greater)
        } else {
            Some(Ordering::Equal)
        }
    }
}

/// Codes compare by the order of what they stand for. Two codes that
/// neither comes before the other stand for the same and are equal.
impl PartialOrdSpecImpl for SAC {
    open spec fn obeys_partial_cmp_spec() -> bool {
        true
    }

    open spec fn partial_cmp_spec(&self, other: &SAC) -> Option<Ordering> {
        if self@.lt(other@) {
            Some(Ordering::Less)
        } else if other@.lt(self@) {
            Some(Ordering::Greater)
        } else {
            Some(Ordering::Equal)
        }
    }
}

} // verus!
