//! The checkable frontier: for each property and polarity, the witness shape,
//! the complexity of checking it against the net itself, and whether a
//! checker exists.

use vstd::prelude::*;

verus! {

/// A property the analyzer decides.
#[derive(Debug, Clone, Copy, PartialEq, Eq, Hash, Structural)]
pub enum Property {
    /// Is a given target marking reachable from `M₀`?
    Reachability,
    /// Is a given target marking coverable from `M₀`?
    Coverability,
    /// Is the reachable state space finite?
    Boundedness,
    /// Is every transition live?
    Liveness,
    /// Is no reachable marking a total deadlock?
    DeadlockFreedom,
}

/// The pole a certificate witnesses: that the property holds, that it fails,
/// or both (a procedure deciding the question exactly).
#[derive(Debug, Clone, Copy, PartialEq, Eq, Hash, Structural)]
pub enum Polarity {
    /// Witnesses that the property holds.
    ProveYes,
    /// Witnesses that the property fails.
    ProveNo,
    /// Decides both poles exactly.
    Exact,
}

/// The complexity of checking a certificate against the net itself.
#[derive(Debug, Clone, Copy, PartialEq, Eq, Hash, Structural)]
pub enum CheckComplexity {
    /// Near-linear in the net and witness size.
    NearLinear,
    /// Polynomial.
    Polynomial,
    /// No known compact checkable certificate.
    Wall,
}

impl CheckComplexity {
    /// A short human label.
    pub fn label(self) -> (r: &'static str)
        ensures
            r@ == (match self {
                CheckComplexity::NearLinear => "near-linear"@,
                CheckComplexity::Polynomial => "polynomial"@,
                CheckComplexity::Wall => "wall (no compact certificate)"@,
            }),
    {
        match self {
            CheckComplexity::NearLinear => "near-linear",
            CheckComplexity::Polynomial => "polynomial",
            CheckComplexity::Wall => "wall (no compact certificate)",
        }
    }
}

/// One cell of the checkable-frontier map.
#[derive(Debug, Clone, PartialEq, Eq)]
pub struct FrontierEntry {
    /// The property this row is about.
    pub property: Property,
    /// The pole the certificate witnesses.
    pub polarity: Polarity,
    /// The witness shape.
    pub witness: &'static str,
    /// The complexity of checking the witness.
    pub check: CheckComplexity,
    /// Whether a checker for the witness exists.
    pub checker_built: bool,
    /// The theorem a built checker rests on, or what a missing one waits for.
    pub note: &'static str,
}

/// The property, polarity, check complexity and checker standing of the `k`-th
/// row of the frontier table.
pub open spec fn frontier_row(k: int) -> (Property, Polarity, CheckComplexity, bool) {
    if k == 0 {
        (Property::Reachability, Polarity::ProveYes, CheckComplexity::NearLinear, true)
    } else if k == 1 {
        (Property::Reachability, Polarity::ProveYes, CheckComplexity::NearLinear, true)
    } else if k == 2 {
        (Property::Reachability, Polarity::ProveNo, CheckComplexity::NearLinear, true)
    } else if k == 3 {
        (Property::Reachability, Polarity::ProveNo, CheckComplexity::NearLinear, false)
    } else if k == 4 {
        (Property::Reachability, Polarity::ProveNo, CheckComplexity::Wall, false)
    } else if k == 5 {
        (Property::Coverability, Polarity::ProveYes, CheckComplexity::NearLinear, true)
    } else if k == 6 {
        (Property::Coverability, Polarity::ProveYes, CheckComplexity::NearLinear, false)
    } else if k == 7 {
        (Property::Coverability, Polarity::ProveNo, CheckComplexity::NearLinear, false)
    } else if k == 8 {
        (Property::Boundedness, Polarity::ProveYes, CheckComplexity::NearLinear, true)
    } else if k == 9 {
        (Property::Boundedness, Polarity::ProveNo, CheckComplexity::NearLinear, false)
    } else if k == 10 {
        (Property::Liveness, Polarity::ProveYes, CheckComplexity::Polynomial, true)
    } else if k == 11 {
        (Property::Liveness, Polarity::ProveYes, CheckComplexity::Polynomial, false)
    } else if k == 12 {
        (Property::Liveness, Polarity::Exact, CheckComplexity::Wall, false)
    } else if k == 13 {
        (Property::DeadlockFreedom, Polarity::ProveYes, CheckComplexity::Polynomial, true)
    } else if k == 14 {
        (Property::DeadlockFreedom, Polarity::ProveNo, CheckComplexity::NearLinear, false)
    } else {
        (Property::DeadlockFreedom, Polarity::ProveNo, CheckComplexity::NearLinear, false)
    }
}

/// The text fields of the `k`-th row, in declaration order.
pub open spec fn frontier_text(k: int) -> (Seq<char>, Seq<char>) {
    if k == 0 {
        ("firing word (replay)"@, "FiringSequenceCert: replay σ from M₀, reached == target"@)
    } else if k == 1 {
        ("marking-equation integer Parikh vector"@, "ParikhVectorCert: recompute M₀+C·σ over ℤ (sufficient on MG/FC; Thm 5.2.7 / 5.3.18)"@)
    } else if k == 2 {
        ("state-machine token conservation"@, "TokenConservationCert: re-derive |•t|=|t•|=1 ∀t and sum(M₀)≠sum(target)"@)
    } else if k == 3 {
        ("Farkas P-semiflow (separating place invariant)"@, "M5/B1a: needs an EXACT-rational separating invariant (y·C=0 ∧ y·(m'−m₀)≠0); an f64 dual is not emittable"@)
    } else if k == 4 {
        ("ILP-only infeasibility (cutting-plane derivation)"@, "the wall: integer-only infeasibility has no single Farkas dual (VeriPB-shaped, worst-case super-polynomial)"@)
    } else if k == 5 {
        ("firing word to a finite covering marking (replay)"@, "FiringSequenceCert on Query::Coverable: reached ≥ target (finite case)"@)
    } else if k == 6 {
        ("ω-covering marking with pumping cycle (lasso)"@, "C7 witness enrichment: the ω-witness lacks its pumping cycle; the finite firing word checks, the ω lasso does not yet"@)
    } else if k == 7 {
        ("Farkas P-semiflow (separating place invariant)"@, "M5/B1a: shares the exact-rational dual precondition with unreachability"@)
    } else if k == 8 {
        ("positive place sub-invariant y (yᵀC ≤ 0)"@, "BoundednessSubinvariantCert (A4/M5): re-verify y > 0 and yᵀ·C ≤ 0 over ℚ exactly; the structural bound is ⌊(y·M₀)/y[p]⌋. The exact witness replaces the f64 vector on the decider path at M6."@)
    } else if k == 9 {
        ("Karp–Miller self-covering lasso (unboundedness)"@, "C7 witness enrichment: the ω-witness lacks the self-covering cycle the checker needs"@)
    } else if k == 10 {
        ("free-choice siphon/trap cover (Commoner–Hack)"@, "SiphonTrapCoverCert (Live claim): re-derive the CHC universal from primitives, then GATE the liveness reading to free-choice (the universal is sufficient for liveness only on FC; Thm 5.17). Enumeration is the generator's cost."@)
    } else if k == 11 {
        ("marked-graph circuit-token cover"@, "C7 witness enrichment: LivenessMethod::MarkedGraph carries no circuit-token data yet"@)
    } else if k == 12 {
        ("general (non-free-choice) liveness"@, "the wall: no known compact checkable certificate for general liveness — the standout open, high-novelty target"@)
    } else if k == 13 {
        ("siphon/trap cover (sufficient, general nets)"@, "SiphonTrapCoverCert (DeadlockFree claim): every minimal siphon holds a marked trap ⇒ deadlock-free on ANY class (no fence; sufficient; the converse is unsound and excluded)"@)
    } else {
        ("reachable deadlock marking (firing word to a dead marking)"@, "M3+: a firing word to a marking enabling no transition; the witness is not yet emitted by a structural decider"@)
    }
}

/// The checkable-frontier table, row by row.
pub fn frontier_table() -> (r: Vec<FrontierEntry>)
    ensures
        forall|k: int| 0 <= k < 15 ==> (#[trigger] r@[k]).witness@ == frontier_text(k).0 && r@[k].note@ == frontier_text(k).1,
        r@.len() == 15,
        forall|k: int| 0 <= k < 15 ==> (#[trigger] r@[k]).property == frontier_row(k).0 && r@[k].polarity == frontier_row(k).1
            && r@[k].check == frontier_row(k).2 && r@[k].checker_built == frontier_row(k).3,
{
    let mut v: Vec<FrontierEntry> = Vec::new();
    v.push(FrontierEntry {
        property: Property::Reachability,
        polarity: Polarity::ProveYes,
        witness: "firing word (replay)",
        check: CheckComplexity::NearLinear,
        checker_built: true,
        note: "FiringSequenceCert: replay σ from M₀, reached == target",
    });
    v.push(FrontierEntry {
        property: Property::Reachability,
        polarity: Polarity::ProveYes,
        witness: "marking-equation integer Parikh vector",
        check: CheckComplexity::NearLinear,
        checker_built: true,
        note: "ParikhVectorCert: recompute M₀+C·σ over ℤ (sufficient on MG/FC; Thm 5.2.7 / 5.3.18)",
    });
    v.push(FrontierEntry {
        property: Property::Reachability,
        polarity: Polarity::ProveNo,
        witness: "state-machine token conservation",
        check: CheckComplexity::NearLinear,
        checker_built: true,
        note: "TokenConservationCert: re-derive |•t|=|t•|=1 ∀t and sum(M₀)≠sum(target)",
    });
    v.push(FrontierEntry {
        property: Property::Reachability,
        polarity: Polarity::ProveNo,
        witness: "Farkas P-semiflow (separating place invariant)",
        check: CheckComplexity::NearLinear,
        checker_built: false,
        note: "M5/B1a: needs an EXACT-rational separating invariant (y·C=0 ∧ y·(m'−m₀)≠0); an f64 dual is not emittable",
    });
    v.push(FrontierEntry {
        property: Property::Reachability,
        polarity: Polarity::ProveNo,
        witness: "ILP-only infeasibility (cutting-plane derivation)",
        check: CheckComplexity::Wall,
        checker_built: false,
        note: "the wall: integer-only infeasibility has no single Farkas dual (VeriPB-shaped, worst-case super-polynomial)",
    });
    v.push(FrontierEntry {
        property: Property::Coverability,
        polarity: Polarity::ProveYes,
        witness: "firing word to a finite covering marking (replay)",
        check: CheckComplexity::NearLinear,
        checker_built: true,
        note: "FiringSequenceCert on Query::Coverable: reached ≥ target (finite case)",
    });
    v.push(FrontierEntry {
        property: Property::Coverability,
        polarity: Polarity::ProveYes,
        witness: "ω-covering marking with pumping cycle (lasso)",
        check: CheckComplexity::NearLinear,
        checker_built: false,
        note: "C7 witness enrichment: the ω-witness lacks its pumping cycle; the finite firing word checks, the ω lasso does not yet",
    });
    v.push(FrontierEntry {
        property: Property::Coverability,
        polarity: Polarity::ProveNo,
        witness: "Farkas P-semiflow (separating place invariant)",
        check: CheckComplexity::NearLinear,
        checker_built: false,
        note: "M5/B1a: shares the exact-rational dual precondition with unreachability",
    });
    v.push(FrontierEntry {
        property: Property::Boundedness,
        polarity: Polarity::ProveYes,
        witness: "positive place sub-invariant y (yᵀC ≤ 0)",
        check: CheckComplexity::NearLinear,
        checker_built: true,
        note: "BoundednessSubinvariantCert (A4/M5): re-verify y > 0 and yᵀ·C ≤ 0 over ℚ exactly; the structural bound is ⌊(y·M₀)/y[p]⌋. The exact witness replaces the f64 vector on the decider path at M6.",
    });
    v.push(FrontierEntry {
        property: Property::Boundedness,
        polarity: Polarity::ProveNo,
        witness: "Karp–Miller self-covering lasso (unboundedness)",
        check: CheckComplexity::NearLinear,
        checker_built: false,
        note: "C7 witness enrichment: the ω-witness lacks the self-covering cycle the checker needs",
    });
    v.push(FrontierEntry {
        property: Property::Liveness,
        polarity: Polarity::ProveYes,
        witness: "free-choice siphon/trap cover (Commoner–Hack)",
        check: CheckComplexity::Polynomial,
        checker_built: true,
        note: "SiphonTrapCoverCert (Live claim): re-derive the CHC universal from primitives, then GATE the liveness reading to free-choice (the universal is sufficient for liveness only on FC; Thm 5.17). Enumeration is the generator's cost.",
    });
    v.push(FrontierEntry {
        property: Property::Liveness,
        polarity: Polarity::ProveYes,
        witness: "marked-graph circuit-token cover",
        check: CheckComplexity::Polynomial,
        checker_built: false,
        note: "C7 witness enrichment: LivenessMethod::MarkedGraph carries no circuit-token data yet",
    });
    v.push(FrontierEntry {
        property: Property::Liveness,
        polarity: Polarity::Exact,
        witness: "general (non-free-choice) liveness",
        check: CheckComplexity::Wall,
        checker_built: false,
        note: "the wall: no known compact checkable certificate for general liveness — the standout open, high-novelty target",
    });
    v.push(FrontierEntry {
        property: Property::DeadlockFreedom,
        polarity: Polarity::ProveYes,
        witness: "siphon/trap cover (sufficient, general nets)",
        check: CheckComplexity::Polynomial,
        checker_built: true,
        note: "SiphonTrapCoverCert (DeadlockFree claim): every minimal siphon holds a marked trap ⇒ deadlock-free on ANY class (no fence; sufficient; the converse is unsound and excluded)",
    });
    v.push(FrontierEntry {
        property: Property::DeadlockFreedom,
        polarity: Polarity::ProveNo,
        witness: "reachable deadlock marking (firing word to a dead marking)",
        check: CheckComplexity::NearLinear,
        checker_built: false,
        note: "M3+: a firing word to a marking enabling no transition; the witness is not yet emitted by a structural decider",
    });
    v
}

} // verus!
