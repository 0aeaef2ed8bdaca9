//! Name-anchored certificate shapes: the property question and the witness
//! expressed with place and transition names rather than handles, so that a
//! certificate does not depend on any net's internal indexing.

use crate::model::frontier::Polarity;
use vstd::prelude::*;

verus! {

/// A name-anchored query: target markings as `(place_name, count)` pairs.
#[derive(Debug, Clone, PartialEq, Eq)]
pub enum NamedQuery {
    /// A query-free global property (liveness, boundedness, deadlock-freedom).
    Trivial,
    /// Is the named target marking reachable from `M0`?
    Reachable(Vec<(String, u32)>),
    /// Is the named target marking coverable from `M0`?
    Coverable(Vec<(String, u32)>),
}

/// The certificate envelope: the net it is about, the question, the pole the
/// witness establishes, the name-anchored witness, and the theorem the
/// verdict rests on.
#[derive(Debug, Clone, PartialEq, Eq)]
pub struct Cert<W> {
    /// A stable identifier of the net the certificate is about.
    pub net_id: String,
    /// The property question this certificate answers.
    pub query: NamedQuery,
    /// Which pole the witness establishes.
    pub polarity: Polarity,
    /// The name-anchored witness payload.
    pub witness: W,
    /// The theorem the verdict rests on.
    pub theorem_id: String,
}

/// A firing word by transition names, in firing order.
#[derive(Debug, Clone, PartialEq, Eq)]
pub struct NamedFiringWord {
    /// The transition names, in firing order.
    pub transitions: Vec<String>,
}

/// A Parikh vector by transition names: `(transition_name, firing_count)` pairs.
#[derive(Debug, Clone, PartialEq, Eq)]
pub struct NamedParikhVector {
    /// The firing counts, keyed by transition name.
    pub counts: Vec<(String, u32)>,
}

/// A siphon/trap cover by place names: `(siphon, trap)` pairs.
#[derive(Debug, Clone, PartialEq, Eq)]
pub struct NamedSiphonTrapCover {
    /// Each `(siphon_place_names, trap_place_names)` pair.
    pub pairs: Vec<(Vec<String>, Vec<String>)>,
}

impl Polarity {
    /// A short label for the polarity, for human-readable serializations.
    pub fn wire_label(self) -> (r: &'static str)
        ensures
            r@ == (match self {
                Polarity::ProveYes => "prove-yes"@,
                Polarity::ProveNo => "prove-no"@,
                Polarity::Exact => "exact"@,
            }),
    {
        match self {
            Polarity::ProveYes => "prove-yes",
            Polarity::ProveNo => "prove-no",
            Polarity::Exact => "exact",
        }
    }
}

} // verus!
