//! The three-valued [`Verdict`] and its [`Abstention`] reasons.
//!
//! A verdict is a checked positive proof, a checked negative refutation, or an
//! honest abstention carrying the reason the procedure could not decide. The
//! decided variants wrap their payload in [`Proof`] / [`Refutation`], whose
//! field is private to the crate: the only way to obtain one from outside is
//! [`accept`](crate::model::accept), which gates on a certificate.

use vstd::prelude::*;

verus! {

/// A proof that passed its certificate check; the payload of `Proven`.
#[derive(Debug, Clone, PartialEq, Eq)]
pub struct Proof<P>(pub(crate) P);

/// A refutation that passed its certificate check; the payload of `Refuted`.
#[derive(Debug, Clone, PartialEq, Eq)]
pub struct Refutation<N>(pub(crate) N);

impl<P> Proof<P> {
    /// The witnessed proof payload.
    pub closed spec fn payload(&self) -> P {
        self.0
    }

    /// Borrows the witnessed proof payload.
    pub fn witness(&self) -> (r: &P)
        ensures
            *r == self.payload(),
    {
        &self.0
    }

    /// Consumes the wrapper, yielding the proof payload.
    pub fn into_witness(self) -> (r: P)
        ensures
            r == self.payload(),
    {
        self.0
    }
}

impl<N> Refutation<N> {
    /// The witnessed refutation payload.
    pub closed spec fn payload(&self) -> N {
        self.0
    }

    /// Borrows the witnessed refutation payload.
    pub fn witness(&self) -> (r: &N)
        ensures
            *r == self.payload(),
    {
        &self.0
    }

    /// Consumes the wrapper, yielding the refutation payload.
    pub fn into_witness(self) -> (r: N)
        ensures
            r == self.payload(),
    {
        self.0
    }
}

/// The reason a procedure abstained.
#[derive(Debug, Clone, Copy, PartialEq, Eq, Hash, Structural)]
pub enum Abstention {
    /// The net is unbounded, so the finite procedure the query needs does not terminate.
    Unbounded,
    /// No efficient procedure is known for this net class and query.
    NoEfficientProcedure,
    /// A candidate witness did not check against the net itself and was rejected.
    NotApplicable,
}

/// A three-valued verdict for a property query: a checked proof, a checked
/// refutation, or an abstention with its reason.
///
/// An abstention is a value of its own, distinct from a refutation: "could not
/// decide" is never readable as "provably false".
#[derive(Debug, Clone, PartialEq, Eq)]
pub enum Verdict<P, N> {
    /// The property holds, witnessed by a checked proof.
    Proven(Proof<P>),
    /// The property fails, witnessed by a checked refutation.
    Refuted(Refutation<N>),
    /// No procedure decided the query; tagged with the reason.
    Inconclusive(Abstention),
}

impl<P, N> Verdict<P, N> {
    /// An abstention, which needs no certificate.
    pub fn inconclusive(reason: Abstention) -> (r: Self)
        ensures
            r == Verdict::<P, N>::Inconclusive(reason),
    {
        Verdict::Inconclusive(reason)
    }

    /// A decided positive verdict; crate-internal, reached only through the certificate gate.
    pub(crate) fn proven(payload: P) -> (r: Self)
        ensures
            r matches Verdict::Proven(p) && p.payload() == payload,
    {
        Verdict::Proven(Proof(payload))
    }

    /// A decided negative verdict; crate-internal, reached only through the certificate gate.
    pub(crate) fn refuted(payload: N) -> (r: Self)
        ensures
            r matches Verdict::Refuted(n) && n.payload() == payload,
    {
        Verdict::Refuted(Refutation(payload))
    }

    /// Whether this verdict is a checked positive proof.
    pub fn is_proven(&self) -> (r: bool)
        ensures
            r == (*self is Proven),
    {
        matches!(self, Verdict::Proven(_))
    }

    /// Whether this verdict is a checked negative refutation.
    pub fn is_refuted(&self) -> (r: bool)
        ensures
            r == (*self is Refuted),
    {
        matches!(self, Verdict::Refuted(_))
    }

    /// Whether this verdict abstained.
    pub fn is_inconclusive(&self) -> (r: bool)
        ensures
            r == (*self is Inconclusive),
    {
        matches!(self, Verdict::Inconclusive(_))
    }

    /// The proof payload, if this verdict is `Proven`.
    pub fn proof_witness(&self) -> (r: Option<&P>)
        ensures
            match *self {
                Verdict::Proven(p) => r == Some(&p.payload()),
                _ => r is None,
            },
    {
        match self {
            Verdict::Proven(p) => Some(p.witness()),
            _ => None,
        }
    }

    /// The refutation payload, if this verdict is `Refuted`.
    pub fn refutation(&self) -> (r: Option<&N>)
        ensures
            match *self {
                Verdict::Refuted(n) => r == Some(&n.payload()),
                _ => r is None,
            },
    {
        match self {
            Verdict::Refuted(n) => Some(n.witness()),
            _ => None,
        }
    }

    /// The abstention reason, if this verdict is `Inconclusive`.
    pub fn abstention(&self) -> (r: Option<Abstention>)
        ensures
            match *self {
                Verdict::Inconclusive(a) => r == Some(a),
                _ => r is None,
            },
    {
        match self {
            Verdict::Inconclusive(a) => Some(*a),
            _ => None,
        }
    }
}

} // verus!
