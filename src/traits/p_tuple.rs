use vstd::prelude::*;

verus! {

/// A node paired with its priority. Pairs compare by priority alone, in
/// reverse, so that the pair with the smallest priority is the greatest.
pub struct PTuple<T> {
    pub priority: isize,
    pub node: T,
}

impl<T> PartialEq for PTuple<T> {
    fn eq(&self, other: &Self) -> (r: bool) {
        self.priority == other.priority
    }
}

impl<T> vstd::std_specs::cmp::PartialEqSpecImpl for PTuple<T> {
    open spec fn obeys_eq_spec() -> bool {
        true
    }

    open spec fn eq_spec(&self, other: &Self) -> bool {
        self.priority == other.priority
    }
}

impl<T> Eq for PTuple<T> {

}

impl<T> PartialOrd for PTuple<T> {
    fn partial_cmp(&self, other: &Self) -> (r: Option<core::cmp::Ordering>) {
        if other.priority < self.priority {
            Some(core::cmp::Ordering::Less)
        } else if other.priority == self.priority {
            Some(core::cmp::Ordering::Equal)
        } else {
            Some(core::cmp::Ordering::Greater)
        }
    }
}

impl<T> vstd::std_specs::cmp::PartialOrdSpecImpl for PTuple<T> {
    open spec fn obeys_partial_cmp_spec() -> bool {
        true
    }

    open spec fn partial_cmp_spec(&self, other: &Self) -> Option<core::cmp::Ordering> {
        if other.priority < self.priority {
            Some(core::cmp::Ordering::Less)
        } else if other.priority == self.priority {
            Some(core::cmp::Ordering::Equal)
        } else {
            Some(core::cmp::Ordering::Greater)
        }
    }
}

} // verus!
