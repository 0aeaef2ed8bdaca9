//! The [`Query`] a certificate is checked against.

use vstd::prelude::*;
use crate::marking::Marking;

verus! {

/// The property question a certificate answers, checked against the net itself.
#[derive(Debug, Clone, PartialEq, Eq)]
pub enum Query {
    /// A query-free property (liveness, boundedness, deadlock-freedom).
    Trivial,
    /// Is the given target marking reachable from `M₀`?
    Reachable(Marking<u32>),
    /// Is the given target marking coverable from `M₀`?
    Coverable(Marking<u32>),
}

impl Query {
    /// The query's invariant: any target marking is canonical.
    pub open spec fn wf(&self) -> bool {
        match *self {
            Query::Trivial => true,
            Query::Reachable(m) => m.wf(),
            Query::Coverable(m) => m.wf(),
        }
    }
}

} // verus!
