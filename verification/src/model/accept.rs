//! Certification of candidate results: [`Decided`] and [`accept`].

use vstd::prelude::*;
use crate::marking::Marking;
use crate::model::certificate::Certificate;
use crate::model::frontier::Polarity;
use crate::model::query::Query;
use crate::model::verdict::{Abstention, Verdict};
use crate::net::Net;

verus! {

/// A candidate verdict awaiting certification: a proposed proof or refutation.
///
/// It turns into a decided [`Verdict`] only through [`accept`].
#[derive(Debug, Clone)]
pub struct Decided<P, N>(VerdictCore<P, N>);

#[derive(Debug, Clone)]
enum VerdictCore<P, N> {
    Proven(P),
    Refuted(N),
}

impl<P, N> Decided<P, N> {
    /// The pole the candidate claims.
    pub closed spec fn pole(&self) -> Polarity {
        match self.0 {
            VerdictCore::Proven(_) => Polarity::ProveYes,
            VerdictCore::Refuted(_) => Polarity::ProveNo,
        }
    }

    /// The proposed proof, for a positive candidate.
    pub closed spec fn proof_payload(&self) -> P {
        match self.0 {
            VerdictCore::Proven(p) => p,
            VerdictCore::Refuted(_) => arbitrary(),
        }
    }

    /// The proposed refutation, for a negative candidate.
    pub closed spec fn refutation_payload(&self) -> N {
        match self.0 {
            VerdictCore::Refuted(n) => n,
            VerdictCore::Proven(_) => arbitrary(),
        }
    }

    /// Proposes a positive candidate.
    pub fn prove(proof: P) -> (r: Self)
        ensures
            r.pole() == Polarity::ProveYes,
            r.proof_payload() == proof,
    {
        Decided(VerdictCore::Proven(proof))
    }

    /// Proposes a negative candidate.
    pub fn refute(refutation: N) -> (r: Self)
        ensures
            r.pole() == Polarity::ProveNo,
            r.refutation_payload() == refutation,
    {
        Decided(VerdictCore::Refuted(refutation))
    }

    /// The decided verdict the candidate proposes.
    fn into_verdict(self) -> (r: Verdict<P, N>)
        ensures
            self.pole() == Polarity::ProveYes ==> (r matches Verdict::Proven(p) && p.payload() == self.proof_payload()),
            self.pole() == Polarity::ProveNo ==> (r matches Verdict::Refuted(n) && n.payload() == self.refutation_payload()),
    {
        match self.0 {
            VerdictCore::Proven(p) => Verdict::proven(p),
            VerdictCore::Refuted(n) => Verdict::refuted(n),
        }
    }

    /// The pole the candidate claims.
    fn polarity(&self) -> (r: Polarity)
        ensures
            r == self.pole(),
    {
        match &self.0 {
            VerdictCore::Proven(_) => Polarity::ProveYes,
            VerdictCore::Refuted(_) => Polarity::ProveNo,
        }
    }
}

/// Whether a certificate of pole `cert` may justify a candidate of pole `candidate`.
pub open spec fn coherent(cert: Polarity, candidate: Polarity) -> bool {
    cert == Polarity::Exact || cert == candidate
}

/// Gates a candidate verdict on its certificate, against the net itself.
///
/// The candidate becomes decided exactly when the certificate's pole agrees
/// with the candidate's and its check passes; otherwise the verdict is
/// `Inconclusive(NotApplicable)` — a rejected candidate never turns into the
/// opposite verdict. The certificate is not checked when the poles disagree.
pub fn accept<P, N, C: Certificate>(
    candidate: Decided<P, N>,
    cert: &C,
    net: &Net,
    m0: &Marking<u32>,
    query: &Query,
) -> (r: Verdict<P, N>)
    requires
        net.wf(),
        m0.wf(),
        query.wf(),
    ensures
        !(r is Inconclusive) <==> coherent(cert.polarity_spec(), candidate.pole()) && cert.check_spec(*net, *m0, *query),
        r is Inconclusive ==> r == Verdict::<P, N>::Inconclusive(Abstention::NotApplicable),
        r matches Verdict::Proven(p) ==> candidate.pole() == Polarity::ProveYes && p.payload() == candidate.proof_payload(),
        r matches Verdict::Refuted(n) ==> candidate.pole() == Polarity::ProveNo && n.payload() == candidate.refutation_payload(),
{
    let pole = cert.polarity();
    let coherent_poles = pole == Polarity::Exact || pole == candidate.polarity();
    if coherent_poles && cert.check(net, m0, query) {
        candidate.into_verdict()
    } else {
        Verdict::inconclusive(Abstention::NotApplicable)
    }
}

} // verus!
