use petrivet::analysis::{NonCoverabilityProof, ReachabilityProof, ReachabilityResult, UnreachabilityProof};
use petrivet::builder::NetBuilder;
use petrivet::marking::Marking;
use petrivet::PetriNet;

#[test]
fn current_marking_is_reached_by_the_empty_sequence() {
    let mut b = NetBuilder::new();
    let [p0, p1] = b.add_places();
    let [t0, t1] = b.add_transitions();
    b.add_arcs((p0, t0, p1, t1, p0));
    let net = b.build().expect("valid net");
    let sys = PetriNet::new(&net, Marking::from_entries(vec![(p0, 1)]));
    let r = sys.reachability_verdict(&Marking::from_entries(vec![(p0, 1)]), None, None);
    assert!(matches!(r, ReachabilityResult::Reachable(ReachabilityProof::FiringSequence(ref v)) if v.is_empty()));
}

#[test]
fn strongly_connected_state_machine_conserves_tokens() {
    let mut b = NetBuilder::new();
    let [p0, p1] = b.add_places();
    let [t0, t1] = b.add_transitions();
    b.add_arcs((p0, t0, p1, t1, p0));
    let net = b.build().expect("valid net");
    let sys = PetriNet::new(&net, Marking::from_entries(vec![(p0, 1)]));
    let r = sys.reachability_verdict(&Marking::from_entries(vec![(p1, 1)]), None, None);
    assert!(matches!(r, ReachabilityResult::Reachable(ReachabilityProof::StronglyConnectedSNetTokenConservation { marking_sum: 1 })));
    let r = sys.reachability_verdict(&Marking::from_entries(vec![(p0, 2)]), None, None);
    assert!(matches!(r, ReachabilityResult::Unreachable(UnreachabilityProof::SNetTokenConservationViolation)));
}

fn general_net() -> (petrivet::Net, [petrivet::Place; 4]) {
    let mut b = NetBuilder::new();
    let [p0, p1, p2, p3] = b.add_places();
    let [t0, t1, t2, t3] = b.add_transitions();
    b.add_arc((p0, t0));
    b.add_arc((t0, p1));
    b.add_arc((t0, p2));
    b.add_arc((p1, t1));
    b.add_arc((p2, t1));
    b.add_arc((t1, p0));
    b.add_arc((p0, t2));
    b.add_arc((t2, p3));
    b.add_arc((p3, t3));
    b.add_arc((t3, p0));
    (b.build().expect("valid net"), [p0, p1, p2, p3])
}

#[test]
fn general_net_is_decided_by_the_state_space() {
    let (net, [p0, p1, p2, p3]) = general_net();
    let sys = PetriNet::new(&net, Marking::from_entries(vec![(p0, 1)]));
    let r = sys.reachability_verdict(&Marking::from_entries(vec![(p1, 1), (p2, 1)]), None, None);
    assert!(matches!(r, ReachabilityResult::Reachable(ReachabilityProof::FiringSequence(ref v)) if v.len() == 1));
    let r = sys.reachability_verdict(&Marking::from_entries(vec![(p3, 2)]), None, None);
    assert!(matches!(r, ReachabilityResult::Unreachable(UnreachabilityProof::ExhaustiveSearch)));
}

#[test]
fn failed_filters_refute_the_target() {
    let (net, [p0, _, _, p3]) = general_net();
    let sys = PetriNet::new(&net, Marking::from_entries(vec![(p0, 1)]));
    let target = Marking::from_entries(vec![(p3, 2)]);
    let r = sys.reachability_verdict(&target, Some(false), None);
    assert!(matches!(r, ReachabilityResult::Unreachable(UnreachabilityProof::MarkingEquationNoRationalSolution)));
    let r = sys.reachability_verdict(&target, Some(true), Some(false));
    assert!(matches!(r, ReachabilityResult::Unreachable(UnreachabilityProof::MarkingEquationNoIntegerSolution)));
}

#[test]
fn unbounded_net_is_inconclusive() {
    let mut b = NetBuilder::new();
    let [p0, p1] = b.add_places();
    let t0 = b.add_transition();
    b.add_arc((p0, t0));
    b.add_arc((t0, p0));
    b.add_arc((t0, p1));
    let net = b.build().expect("valid net");
    let sys = PetriNet::new(&net, Marking::from_entries(vec![(p0, 1)]));
    let r = sys.reachability_verdict(&Marking::from_entries(vec![(p1, 5)]), None, None);
    assert!(matches!(r, ReachabilityResult::Inconclusive));
}

#[test]
fn coverability_verdict_gives_evidence() {
    let (net, [p0, p1, p2, p3]) = general_net();
    let sys = PetriNet::new(&net, Marking::from_entries(vec![(p0, 1)]));
    let r = sys.coverability_verdict(&Marking::from_entries(vec![(p0, 1)]), None, None);
    assert!(matches!(r, Ok(ref p) if p.firing_sequence.is_empty()));
    let r = sys.coverability_verdict(&Marking::from_entries(vec![(p1, 1), (p2, 1)]), None, None);
    assert!(matches!(r, Ok(ref p) if p.firing_sequence.len() == 1));
    let r = sys.coverability_verdict(&Marking::from_entries(vec![(p3, 2)]), None, None);
    assert!(matches!(r, Err(NonCoverabilityProof::ExhaustiveSearch)));
    let r = sys.coverability_verdict(&Marking::from_entries(vec![(p3, 2)]), Some(false), None);
    assert!(matches!(r, Err(NonCoverabilityProof::MarkingEquationNoRationalSolution)));
    let r = sys.coverability_verdict(&Marking::from_entries(vec![(p3, 2)]), None, Some(false));
    assert!(matches!(r, Err(NonCoverabilityProof::MarkingEquationNoIntegerSolution)));
}

#[test]
fn omega_covers_large_targets() {
    let mut b = NetBuilder::new();
    let [p0, p1] = b.add_places();
    let t0 = b.add_transition();
    b.add_arc((p0, t0));
    b.add_arc((t0, p0));
    b.add_arc((t0, p1));
    let net = b.build().expect("valid net");
    let sys = PetriNet::new(&net, Marking::from_entries(vec![(p0, 1)]));
    let r = sys.coverability_verdict(&Marking::from_entries(vec![(p1, 5)]), None, None);
    assert!(matches!(r, Ok(ref p) if p.covering_marking.has_omega()));
}
