//! The [`Certificate`] trait: a witness that re-establishes its property
//! against the net itself.

use vstd::prelude::*;
use crate::marking::Marking;
use crate::model::frontier::Polarity;
use crate::model::query::Query;
use crate::net::Net;

verus! {

/// A checkable witness for a property verdict.
///
/// `check` re-establishes the property against the net itself, its initial
/// marking and the query; `polarity` names the pole the witness establishes.
pub trait Certificate {
    /// Whether the witness is valid for `(net, m0, query)`.
    spec fn check_spec(&self, net: Net, m0: Marking<u32>, query: Query) -> bool;

    /// The pole the witness establishes when its check passes.
    spec fn polarity_spec(&self) -> Polarity;

    /// Re-establishes the claimed property against the net itself.
    fn check(&self, net: &Net, m0: &Marking<u32>, query: &Query) -> (r: bool)
        requires
            net.wf(),
            m0.wf(),
            query.wf(),
        ensures
            r == self.check_spec(*net, *m0, *query),
    ;

    /// The pole this witness establishes when its check passes.
    fn polarity(&self) -> (r: Polarity)
        ensures
            r == self.polarity_spec(),
    ;
}

} // verus!
