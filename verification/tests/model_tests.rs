use petrivet::builder::NetBuilder;
use petrivet::marking::Marking;
use petrivet::model::{
    accept, frontier_table, trusted_base, Abstention, BareBooleanCert, Budget, CheckComplexity,
    Decided, DeciderKind, FiringSequenceCert, ParikhVectorCert, Polarity, Query, TokenConservationCert, Verdict,
};
use petrivet::model::Certificate;
use petrivet::{Net, PetriNet, Place, Transition};

fn two_place_cycle() -> (Net, Place, Transition, Place, Transition) {
    let mut b = NetBuilder::new();
    let [p0, p1] = b.add_places();
    let [t0, t1] = b.add_transitions();
    b.add_arc((p0, t0));
    b.add_arc((t0, p1));
    b.add_arc((p1, t1));
    b.add_arc((t1, p0));
    let net = b.build().expect("valid net");
    (net, p0, t0, p1, t1)
}

fn decided<P, N>(candidate: Decided<P, N>, yes: bool) -> Verdict<P, N> {
    let (net, p0, _t0, _p1, _t1) = two_place_cycle();
    let m0 = Marking::from_entries(vec![(p0, 1)]);
    let cert = if yes { BareBooleanCert::prove_yes() } else { BareBooleanCert::prove_no() };
    accept(candidate, &cert, &net, &m0, &Query::Trivial)
}

#[test]
fn inconclusive_is_type_distinct_from_refuted() {
    let v: Verdict<&str, &str> = Verdict::inconclusive(Abstention::Unbounded);
    assert!(v.is_inconclusive());
    assert!(!v.is_refuted());
    assert!(!v.is_proven());
    assert_eq!(v.abstention(), Some(Abstention::Unbounded));
    assert_eq!(v.refutation(), None);
    assert_eq!(v.proof_witness(), None);
}

#[test]
fn accessors_match_variants() {
    let proven: Verdict<u8, u8> = decided(Decided::prove(7), true);
    assert_eq!(proven.proof_witness(), Some(&7));
    assert_eq!(proven.refutation(), None);
    assert_eq!(proven.abstention(), None);

    let refuted: Verdict<u8, u8> = decided(Decided::refute(9), false);
    assert_eq!(refuted.refutation(), Some(&9));
    assert_eq!(refuted.proof_witness(), None);
}

#[test]
fn wrappers_expose_witness() {
    let p = match decided::<&str, &str>(Decided::prove("proof"), true) {
        Verdict::Proven(p) => p,
        _ => unreachable!(),
    };
    assert_eq!(p.witness(), &"proof");
    assert_eq!(p.into_witness(), "proof");
    let r = match decided::<&str, &str>(Decided::refute("refutation"), false) {
        Verdict::Refuted(r) => r,
        _ => unreachable!(),
    };
    assert_eq!(r.witness(), &"refutation");
    assert_eq!(r.into_witness(), "refutation");
}

#[test]
fn frontier_map_matches_committed_baseline() {
    let table = frontier_table();
    assert_eq!(table.len(), 15, "frontier cell count changed (update baseline)");
    let built = table.iter().filter(|e| e.checker_built).count();
    assert_eq!(built, 7, "built-checker cell count changed (update baseline)");
    let built_near_linear = table
        .iter()
        .filter(|e| e.checker_built && e.check == CheckComplexity::NearLinear)
        .count();
    let built_polynomial = table
        .iter()
        .filter(|e| e.checker_built && e.check == CheckComplexity::Polynomial)
        .count();
    assert_eq!(built_near_linear, 5, "built near-linear checker count changed");
    assert_eq!(built_polynomial, 2, "built polynomial checker count changed");
    let walls = table.iter().filter(|e| e.check == CheckComplexity::Wall).count();
    assert_eq!(walls, 2, "wall-cell count changed (the stated hardness boundary)");
    assert!(
        table.iter().all(|e| !(e.checker_built && e.check == CheckComplexity::Wall)),
        "a checker must never be marked built on a wall cell"
    );
    assert!(table.iter().all(|e| !e.note.is_empty()));
    for polarity in [Polarity::ProveYes, Polarity::ProveNo, Polarity::Exact] {
        assert!(
            table.iter().any(|e| e.polarity == polarity),
            "polarity {polarity:?} missing from the frontier map"
        );
    }
}

#[test]
fn every_decider_carries_its_rationale() {
    for d in trusted_base().deciders {
        assert!(!d.note.is_empty(), "decider {} has no rationale note", d.method);
        assert!(!d.method.is_empty());
        assert!(!d.property.is_empty());
    }
}

#[test]
fn trusted_base_is_reported_and_non_increasing() {
    let ledger = trusted_base();
    assert!(ledger.trusted_base_size() <= 3);
    assert!(ledger.certifying_count() >= 4);
    let f = ledger.certifying_count() as f64 / ledger.deciders.len() as f64;
    assert!((0.0..=1.0).contains(&f));
    assert!((f - 4.0 / 7.0).abs() < 1e-9);
    assert_eq!(
        ledger.deciders.iter().filter(|d| d.kind == DeciderKind::Certifying).count(),
        4
    );
}

#[test]
fn check_complexity_labels() {
    assert_eq!(CheckComplexity::NearLinear.label(), "near-linear");
    assert_eq!(CheckComplexity::Polynomial.label(), "polynomial");
    assert_eq!(CheckComplexity::Wall.label(), "wall (no compact certificate)");
}

#[test]
fn budget_default_is_unbounded() {
    assert_eq!(Budget::default(), Budget::unbounded());
    assert_eq!(Budget::unbounded().max_states, None);
}

fn marking_after(net: &Net, m0: &Marking<u32>, seq: &[Transition]) -> Marking<u32> {
    let mut sys = PetriNet::new(net, m0.clone());
    for &t in seq {
        sys.try_fire(t).expect("sequence transition should be enabled");
    }
    sys.marking()
}

#[test]
fn accept_passing_check_yields_proven() {
    let (net, p0, t0, _p1, _t1) = two_place_cycle();
    let m0 = Marking::from_entries(vec![(p0, 1)]);
    let reached = marking_after(&net, &m0, &[t0]);
    let query = Query::Reachable(reached);
    let cert = FiringSequenceCert { sequence: vec![t0] };
    let verdict = accept(Decided::<&str, &str>::prove("reaches the target"), &cert, &net, &m0, &query);
    assert!(verdict.is_proven());
    assert_eq!(verdict.proof_witness(), Some(&"reaches the target"));
}

#[test]
fn accept_enforces_polarity_coherence() {
    let (net, p0, t0, _p1, _t1) = two_place_cycle();
    let m0 = Marking::from_entries(vec![(p0, 1)]);
    let reach = Query::Reachable(marking_after(&net, &m0, &[t0]));
    let yes = FiringSequenceCert { sequence: vec![t0] };
    let no = BareBooleanCert::prove_no();
    assert!(accept(Decided::<u8, u8>::prove(1), &yes, &net, &m0, &reach).is_proven());
    assert!(accept(Decided::<u8, u8>::refute(2), &no, &net, &m0, &Query::Trivial).is_refuted());
    let v = accept(Decided::<u8, u8>::refute(3), &yes, &net, &m0, &reach);
    assert!(v.is_inconclusive() && !v.is_refuted());
    assert_eq!(v.abstention(), Some(Abstention::NotApplicable));
    let v = accept(Decided::<u8, u8>::prove(4), &no, &net, &m0, &Query::Trivial);
    assert!(v.is_inconclusive() && !v.is_proven());
}

#[test]
fn firing_sequence_fails_against_a_different_query() {
    let (net, p0, t0, p1, _t1) = two_place_cycle();
    let m0 = Marking::from_entries(vec![(p0, 1)]);
    let cert = FiringSequenceCert { sequence: vec![t0] };
    let reached = marking_after(&net, &m0, &[t0]);
    assert_eq!(reached, Marking::from_entries(vec![(p1, 1)]));
    let right = Query::Reachable(reached.clone());
    assert!(accept(Decided::<&str, &str>::prove("ok"), &cert, &net, &m0, &right).is_proven());
    for place in [p0, p1] {
        let base = reached.get(place);
        for new_count in [base + 1, base + 2, base + 5] {
            let mut entries: Vec<(Place, u32)> =
                reached.support().into_iter().filter(|(p, _)| *p != place).collect();
            entries.push((place, new_count));
            let wrong = Query::Reachable(Marking::from_entries(entries));
            assert!(accept(Decided::<&str, &str>::prove("ok"), &cert, &net, &m0, &wrong).is_inconclusive());
        }
    }
    assert!(accept(Decided::<&str, &str>::prove("ok"), &cert, &net, &m0, &Query::Trivial).is_inconclusive());
}

#[test]
fn firing_sequence_covers_for_a_coverable_query() {
    let (net, p0, t0, p1, _t1) = two_place_cycle();
    let m0 = Marking::from_entries(vec![(p0, 2)]);
    let cert = FiringSequenceCert { sequence: vec![t0] };
    let cover = Query::Coverable(Marking::from_entries(vec![(p1, 1)]));
    assert!(accept(Decided::<u8, u8>::prove(0), &cert, &net, &m0, &cover).is_proven());
    let too_much = Query::Coverable(Marking::from_entries(vec![(p1, 2)]));
    assert!(accept(Decided::<u8, u8>::prove(0), &cert, &net, &m0, &too_much).is_inconclusive());
}

#[test]
fn firing_sequence_rejects_an_unfireable_sequence() {
    let (net, p0, _t0, p1, t1) = two_place_cycle();
    let m0 = Marking::from_entries(vec![(p0, 1)]);
    let cert = FiringSequenceCert { sequence: vec![t1] };
    let q = Query::Reachable(Marking::from_entries(vec![(p0, 1)]));
    assert!(accept(Decided::<u8, u8>::prove(0), &cert, &net, &m0, &q).is_inconclusive());
    let _ = p1;
}

#[test]
fn token_conservation_accepts_a_sum_mismatch_on_a_state_machine() {
    let (net, p0, _t0, p1, _t1) = two_place_cycle();
    let m0 = Marking::from_entries(vec![(p0, 1)]);
    let q = Query::Reachable(Marking::from_entries(vec![(p1, 2)]));
    assert!(accept(Decided::<u8, u8>::refute(0), &TokenConservationCert, &net, &m0, &q).is_refuted());
    let same = Query::Reachable(Marking::from_entries(vec![(p1, 1)]));
    assert!(accept(Decided::<u8, u8>::refute(0), &TokenConservationCert, &net, &m0, &same).is_inconclusive());
}

#[test]
fn token_conservation_rejects_a_non_state_machine() {
    let mut b = NetBuilder::new();
    let [p0, p1, p2] = b.add_places();
    let [t0] = b.add_transitions();
    b.add_arcs((p0, t0, p1));
    b.add_arc((t0, p2));
    let net = b.build().expect("valid net");
    let m0 = Marking::from_entries(vec![(p0, 1)]);
    let q = Query::Reachable(Marking::from_entries(vec![(p1, 5)]));
    assert!(accept(Decided::<u8, u8>::refute(0), &TokenConservationCert, &net, &m0, &q).is_inconclusive());
}

#[test]
fn parikh_vector_realizes_greedily() {
    let mut b = NetBuilder::new();
    let [p0, p1, p2] = b.add_places();
    let [t0, t1] = b.add_transitions();
    b.add_arcs((p0, t0, p1, t1, p2));
    let net = b.build().expect("valid net");
    let m0 = Marking::from_entries(vec![(p0, 1)]);
    let target = Query::Reachable(Marking::from_entries(vec![(p2, 1)]));
    let cert = ParikhVectorCert { firing_counts: vec![(t1, 1), (t0, 1)] };
    assert!(cert.check(&net, &m0, &target));
    assert_eq!(cert.polarity(), Polarity::ProveYes);
    let elsewhere = Query::Reachable(Marking::from_entries(vec![(p1, 1)]));
    assert!(!cert.check(&net, &m0, &elsewhere));
    let too_many = ParikhVectorCert { firing_counts: vec![(t0, 2)] };
    assert!(!too_many.check(&net, &m0, &target));
    assert!(!cert.check(&net, &m0, &Query::Trivial));
}
