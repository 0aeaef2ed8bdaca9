//! The trusted-base ledger: the inventory of fast deciders, each tagged with
//! its polarity and whether a checker re-validates its verdict.

use vstd::prelude::*;
use crate::model::frontier::Polarity;

verus! {

/// Whether a decider's verdict is re-validated by a checker or rests on the
/// decider's own correctness.
#[derive(Debug, Clone, Copy, PartialEq, Eq, Hash, Structural)]
pub enum DeciderKind {
    /// A checker re-validates the verdict against the net itself.
    Certifying,
    /// The verdict is a bare boolean with no checkable witness: in the trusted base.
    BareBoolean,
}

/// One fast decider of the inventory.
#[derive(Debug, Clone, PartialEq, Eq)]
pub struct Decider {
    /// The decider's public method name.
    pub method: &'static str,
    /// The property it decides.
    pub property: &'static str,
    /// The pole of the verdict it can produce.
    pub polarity: Polarity,
    /// Certifying or bare-boolean.
    pub kind: DeciderKind,
    /// The checker that covers it, or what would make it certifying.
    pub note: &'static str,
}

/// The number of deciders of the given kind.
pub open spec fn count_kind(s: Seq<Decider>, kind: DeciderKind) -> nat
    decreases s.len(),
{
    if s.len() == 0 {
        0
    } else {
        count_kind(s.drop_last(), kind) + (if s.last().kind == kind { 1nat } else { 0nat })
    }
}

/// The text fields of the `k`-th row, in declaration order.
pub open spec fn ledger_text(k: int) -> (Seq<char>, Seq<char>, Seq<char>) {
    if k == 0 {
        ("is_efficiently_reachable (Circuit/live StateMachine, positive)"@, "reachability"@, "FiringSequenceCert / ParikhVectorCert re-validate a positive verdict"@)
    } else if k == 1 {
        ("analyze_reachability → StateMachineTokenConservation"@, "reachability"@, "TokenConservationCert re-derives the S-net precondition + sum mismatch"@)
    } else if k == 2 {
        ("analyze_reachability → MarkingEquation*NoSolution"@, "reachability"@, "M5/B1a: the negative verdict rests on f64 LP infeasibility; an EXACT Farkas P-invariant checker is the certifying replacement"@)
    } else if k == 3 {
        ("is_efficiently_live (FreeChoice via CHC)"@, "liveness"@, "SiphonTrapCoverCert (Live claim) re-derives the CHC universal and gates the liveness reading to free-choice (sound only on FC)"@)
    } else if k == 4 {
        ("is_efficiently_live (Circuit/StateMachine/MarkedGraph)"@, "liveness"@, "M6/M8: a bare bool from class+connectivity / unmarked-circuit; the S-component / circuit-token certificate is B3/B4"@)
    } else if k == 5 {
        ("is_efficiently_bounded (Circuit/StateMachine/MarkedGraph/AC-CHC)"@, "boundedness"@, "still bare-boolean: the A4 exact-sub-invariant CHECKER exists (BoundednessSubinvariantCert, M5), but the live decider does not yet EMIT the exact witness — routing it through accept is the A4 completion (M6, with the S-component cover B3). The ledger flips to Certifying then."@)
    } else {
        ("is_efficiently_deadlock_free (liveness ⇒ DF, or CHC Ok)"@, "deadlock-freedom"@, "SiphonTrapCoverCert (DeadlockFree claim) re-derives the CHC marked-trap universal (sufficient on ANY class, no fence)"@)
    }
}

/// The trusted-base ledger: every fast decider.
#[derive(Debug, Clone)]
pub struct TrustedBaseLedger {
    /// The inventory rows.
    pub deciders: Vec<Decider>,
}

impl TrustedBaseLedger {
    fn count(&self, kind: DeciderKind) -> (r: usize)
        ensures
            r == count_kind(self.deciders@, kind),
    {
        let mut n: usize = 0;
        let mut i: usize = 0;
        while i < self.deciders.len()
            invariant
                0 <= i <= self.deciders@.len(),
                n == count_kind(self.deciders@.subrange(0, i as int), kind),
                n <= i,
            decreases self.deciders@.len() - i,
        {
            proof {
                assert(self.deciders@.subrange(0, i + 1).drop_last() =~= self.deciders@.subrange(0, i as int));
            }
            if self.deciders[i].kind == kind {
                n = n + 1;
            }
            i = i + 1;
        }
        proof {
            assert(self.deciders@.subrange(0, i as int) =~= self.deciders@);
        }
        n
    }

    /// The number of certifying deciders.
    pub fn certifying_count(&self) -> (r: usize)
        ensures
            r == count_kind(self.deciders@, DeciderKind::Certifying),
    {
        self.count(DeciderKind::Certifying)
    }

    /// The number of bare-boolean deciders: the size of the trusted base.
    pub fn trusted_base_size(&self) -> (r: usize)
        ensures
            r == count_kind(self.deciders@, DeciderKind::BareBoolean),
    {
        self.count(DeciderKind::BareBoolean)
    }
}

/// The polarity and kind of the `k`-th decider of the committed ledger.
pub open spec fn ledger_row(k: int) -> (Polarity, DeciderKind) {
    if k == 0 {
        (Polarity::ProveYes, DeciderKind::Certifying)
    } else if k == 1 {
        (Polarity::ProveNo, DeciderKind::Certifying)
    } else if k == 2 {
        (Polarity::ProveNo, DeciderKind::BareBoolean)
    } else if k == 3 {
        (Polarity::ProveYes, DeciderKind::Certifying)
    } else if k == 4 {
        (Polarity::Exact, DeciderKind::BareBoolean)
    } else if k == 5 {
        (Polarity::Exact, DeciderKind::BareBoolean)
    } else if k == 6 {
        (Polarity::ProveYes, DeciderKind::Certifying)
    } else {
        (Polarity::ProveYes, DeciderKind::Certifying)
    }
}

/// The committed trusted-base ledger.
pub fn trusted_base() -> (r: TrustedBaseLedger)
    ensures
        forall|k: int| 0 <= k < 7 ==> (#[trigger] r.deciders@[k]).method@ == ledger_text(k).0 && r.deciders@[k].property@ == ledger_text(k).1 && r.deciders@[k].note@ == ledger_text(k).2,
        r.deciders@.len() == 7,
        forall|k: int| 0 <= k < 7 ==> (#[trigger] r.deciders@[k]).polarity == ledger_row(k).0 && r.deciders@[k].kind == ledger_row(k).1,
        count_kind(r.deciders@, DeciderKind::Certifying) == 4,
        count_kind(r.deciders@, DeciderKind::BareBoolean) == 3,
{
    let mut v: Vec<Decider> = Vec::new();
    v.push(Decider {
        method: "is_efficiently_reachable (Circuit/live StateMachine, positive)",
        property: "reachability",
        polarity: Polarity::ProveYes,
        kind: DeciderKind::Certifying,
        note: "FiringSequenceCert / ParikhVectorCert re-validate a positive verdict",
    });
    v.push(Decider {
        method: "analyze_reachability → StateMachineTokenConservation",
        property: "reachability",
        polarity: Polarity::ProveNo,
        kind: DeciderKind::Certifying,
        note: "TokenConservationCert re-derives the S-net precondition + sum mismatch",
    });
    v.push(Decider {
        method: "analyze_reachability → MarkingEquation*NoSolution",
        property: "reachability",
        polarity: Polarity::ProveNo,
        kind: DeciderKind::BareBoolean,
        note: "M5/B1a: the negative verdict rests on f64 LP infeasibility; an EXACT Farkas P-invariant checker is the certifying replacement",
    });
    v.push(Decider {
        method: "is_efficiently_live (FreeChoice via CHC)",
        property: "liveness",
        polarity: Polarity::ProveYes,
        kind: DeciderKind::Certifying,
        note: "SiphonTrapCoverCert (Live claim) re-derives the CHC universal and gates the liveness reading to free-choice (sound only on FC)",
    });
    v.push(Decider {
        method: "is_efficiently_live (Circuit/StateMachine/MarkedGraph)",
        property: "liveness",
        polarity: Polarity::Exact,
        kind: DeciderKind::BareBoolean,
        note: "M6/M8: a bare bool from class+connectivity / unmarked-circuit; the S-component / circuit-token certificate is B3/B4",
    });
    v.push(Decider {
        method: "is_efficiently_bounded (Circuit/StateMachine/MarkedGraph/AC-CHC)",
        property: "boundedness",
        polarity: Polarity::Exact,
        kind: DeciderKind::BareBoolean,
        note: "still bare-boolean: the A4 exact-sub-invariant CHECKER exists (BoundednessSubinvariantCert, M5), but the live decider does not yet EMIT the exact witness — routing it through accept is the A4 completion (M6, with the S-component cover B3). The ledger flips to Certifying then.",
    });
    v.push(Decider {
        method: "is_efficiently_deadlock_free (liveness ⇒ DF, or CHC Ok)",
        property: "deadlock-freedom",
        polarity: Polarity::ProveYes,
        kind: DeciderKind::Certifying,
        note: "SiphonTrapCoverCert (DeadlockFree claim) re-derives the CHC marked-trap universal (sufficient on ANY class, no fence)",
    });
    proof {
        let s = v@;
        assert(s.drop_last().drop_last().drop_last().drop_last().drop_last().drop_last().drop_last() =~= Seq::<Decider>::empty());
        reveal_with_fuel(count_kind, 8);
    }
    TrustedBaseLedger { deciders: v }
}

} // verus!
