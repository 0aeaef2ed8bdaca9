//! Place invariants: weighted token sums that firing never changes (or only
//! lowers, or only raises).

use crate::net::Place;
use vstd::prelude::*;

verus! {

/// How a weighted token sum may change under firing.
#[derive(Debug, Clone, PartialEq, Eq, Hash, Structural)]
pub enum PInvariantKind {
    /// The weighted sum of the places is constant.
    Invariant,
    /// The weighted sum of the places never increases.
    Subinvariant,
    /// The weighted sum of the places never decreases.
    Surinvariant,
}

/// A place invariant: the weighted sum of the places relates to `value` as
/// `kind` says.
#[derive(Debug, Clone, PartialEq, Eq, Hash)]
pub struct PInvariant {
    /// The weight of each place of the sum.
    pub weights: Vec<(Place, u32)>,
    /// The value the sum is compared with.
    pub value: u32,
    /// How the sum may change.
    pub kind: PInvariantKind,
}

impl PInvariantKind {
    /// The relation the kind stands for, as written between sum and value.
    pub fn relation(&self) -> (r: &'static str)
        ensures
            r@ == (match *self {
                PInvariantKind::Invariant => "="@,
                PInvariantKind::Subinvariant => "<="@,
                PInvariantKind::Surinvariant => ">="@,
            }),
    {
        match self {
            PInvariantKind::Invariant => "=",
            PInvariantKind::Subinvariant => "<=",
            PInvariantKind::Surinvariant => ">=",
        }
    }
}

} // verus!
