//! A transparent wrapper marking a value that should live apart from its
//! neighbours, so that writers on other cores do not share its cache line.
use vstd::prelude::*;

verus! {

/// A value set apart from its neighbours.
#[derive(Clone, Copy, PartialEq, Eq, Hash)]
pub struct CachePadded<T>(T);

impl<T> CachePadded<T> {
    /// The wrapped value.
    pub closed spec fn value(&self) -> T {
        self.0
    }

    /// Wrap a value.
    pub fn new(t: T) -> (c: CachePadded<T>)
        ensures
            c.value() == t,
    {
        CachePadded(t)
    }

    /// Unwrap the value.
    pub fn into_inner(self) -> (t: T)
        ensures
            t == self.value(),
    {
        self.0
    }
}

} // verus!
