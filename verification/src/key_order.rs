//! The order of keys as the comparison operators see it.

use std::cmp::Ordering;
use vstd::prelude::*;
use vstd::std_specs::cmp::PartialOrdSpecImpl;
use crate::component::Component;
use crate::key::{key_before, Key};

verus! {

impl<K: Component> Eq for Key<K> {

}

/// Keys are ordered lexicographically by their components, however far a walk over them
/// has come.
impl<K: Component> PartialOrd for Key<K> {
    fn partial_cmp(&self, other: &Key<K>) -> (r: Option<Ordering>) {
        if self.precedes(other) {
            Some(Ordering::Less)
        } else if other.precedes(self) {
            Some(Ordering::Greater)
        } else {
            Some(Ordering::Equal)
        }
    }
}

impl<K: Component> PartialOrdSpecImpl for Key<K> {
    open spec fn obeys_partial_cmp_spec() -> bool {
        true
    }

    open spec fn partial_cmp_spec(&self, other: &Key<K>) -> Option<Ordering> {
        if key_before::<K>(self@, other@) {
            Some(Ordering::Less)
        } else if key_before::<K>(other@, self@) {
            Some(Ordering::Greater)
        } else {
            Some(Ordering::Equal)
        }
    }
}

} // verus!
