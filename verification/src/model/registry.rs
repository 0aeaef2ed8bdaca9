//! Decider metadata: cost classes, run budgets, the cascade-order policy and
//! the trusted-base placeholder certificate.

use vstd::prelude::*;
use crate::marking::Marking;
use crate::model::certificate::Certificate;
use crate::model::frontier::Polarity;
use crate::model::query::Query;
use crate::net::Net;

verus! {

/// The asymptotic cost tier of a decider, cheapest first.
#[derive(Debug, Clone, Copy, PartialEq, Eq, PartialOrd, Ord, Hash, Structural)]
pub enum CostClass {
    /// Constant time on precomputed fields.
    Constant,
    /// Linear graph walks.
    NearLinear,
    /// Exact linear algebra or siphon/trap enumeration.
    Polynomial,
    /// Coverability or reachability graph construction.
    StateSpace,
}

/// A run budget for a decider; `None` is unbounded.
#[derive(Debug, Clone, Copy, PartialEq, Eq, Structural)]
pub struct Budget {
    /// Maximum number of states a state-space decider may expand.
    pub max_states: Option<usize>,
}

impl Budget {
    /// The unbounded budget.
    pub fn unbounded() -> (r: Budget)
        ensures
            r.max_states is None,
    {
        Budget { max_states: None }
    }
}

impl Default for Budget {
    fn default() -> (r: Budget)
        ensures
            r.max_states is None,
    {
        Budget::unbounded()
    }
}

/// The cascade-faithful policy: admissible deciders are tried in registration order.
#[derive(Debug, Default, Clone, Copy)]
pub struct DefaultPolicy;

/// A placeholder certificate for a decider in the trusted base: it declares a
/// pole but re-derives nothing, so its check always passes and only the pole
/// agreement of [`accept`](crate::model::accept) gates the verdict.
#[derive(Debug, Clone, Copy, PartialEq, Eq, Structural)]
pub struct BareBooleanCert {
    polarity: Polarity,
}

impl BareBooleanCert {
    /// A positive placeholder.
    pub fn prove_yes() -> (r: Self)
        ensures
            r.polarity_spec() == Polarity::ProveYes,
    {
        BareBooleanCert { polarity: Polarity::ProveYes }
    }

    /// A negative placeholder.
    pub fn prove_no() -> (r: Self)
        ensures
            r.polarity_spec() == Polarity::ProveNo,
    {
        BareBooleanCert { polarity: Polarity::ProveNo }
    }
}

impl Certificate for BareBooleanCert {
    open spec fn check_spec(&self, net: Net, m0: Marking<u32>, query: Query) -> bool {
        true
    }

    closed spec fn polarity_spec(&self) -> Polarity {
        self.polarity
    }

    fn check(&self, net: &Net, m0: &Marking<u32>, query: &Query) -> (r: bool) {
        true
    }

    fn polarity(&self) -> (r: Polarity) {
        self.polarity
    }
}

/// The method that established boundedness.
#[derive(Debug, Clone, Copy, PartialEq, Eq, Structural)]
pub enum BoundednessProof {
    /// A conservative class (circuit or state machine) or a strongly connected
    /// marked graph: bounded under every marking.
    ConservativeClass,
    /// The exact coverability graph (or an exact positive sub-invariant).
    Exact,
}

/// The marker that the coverability graph found an unbounded place.
#[derive(Debug, Clone, Copy, PartialEq, Eq, Structural)]
pub struct UnboundedWitness;

/// The marker that the system was shown deadlock-free.
#[derive(Debug, Clone, Copy, PartialEq, Eq, Structural)]
pub struct DeadlockFreeWitness;

} // verus!
