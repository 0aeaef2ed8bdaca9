//! Three-valued results, certificates, and the check that joins them.
//!
//! A decision procedure proposes a candidate verdict together with a
//! certificate; [`accept`] checks the certificate against the net itself and
//! yields a decided [`Verdict`] only when the check passes and the
//! certificate witnesses the pole the candidate claims.

pub mod accept;
pub mod certificate;
pub mod checkers;
pub mod format;
pub mod frontier;
pub mod ledger;
pub mod query;
pub mod registry;
pub mod verdict;

pub use accept::{accept, Decided};
pub use certificate::Certificate;
pub use checkers::{FiringSequenceCert, ParikhVectorCert, SiphonTrapClaim, TokenConservationCert};
pub use format::{Cert, NamedFiringWord, NamedParikhVector, NamedQuery, NamedSiphonTrapCover};
pub use frontier::{frontier_table, CheckComplexity, FrontierEntry, Polarity, Property};
pub use ledger::{trusted_base, Decider, DeciderKind, TrustedBaseLedger};
pub use query::Query;
pub use registry::{BareBooleanCert, BoundednessProof, Budget, CostClass, DeadlockFreeWitness, DefaultPolicy, UnboundedWitness};
pub use verdict::{Abstention, Proof, Refutation, Verdict};
