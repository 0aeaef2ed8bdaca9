use petrivet::builder::NetBuilder;
use petrivet::marking::Marking;
use petrivet::model::format::{Cert, NamedFiringWord, NamedQuery};
use petrivet::model::Polarity;
use petrivet::p_invariant::PInvariantKind;
use petrivet::system::boundedness::Boundedness;
use petrivet::{Net, PetriNet, Place, Transition};

fn two_place_cycle() -> (Net, Place, Transition, Place, Transition) {
    let mut b = NetBuilder::new();
    let [p0, p1] = b.add_places();
    let [t0, t1] = b.add_transitions();
    b.add_arcs((p0, t0, p1, t1, p0));
    let net = b.build().expect("valid net");
    (net, p0, t0, p1, t1)
}

fn producer() -> (Net, Place, Place) {
    let mut b = NetBuilder::new();
    let [q0, q1] = b.add_places();
    let u0 = b.add_transition();
    b.add_arc((q0, u0));
    b.add_arc((u0, q0));
    b.add_arc((u0, q1));
    (b.build().expect("valid pump"), q0, q1)
}

#[test]
fn cycle_and_producer_boundedness() {
    let (cycle, p0, _t0, _p1, _t1) = two_place_cycle();
    let csys = PetriNet::new(&cycle, Marking::from_entries(vec![(p0, 1)]));
    assert!(csys.is_bounded());
    assert_eq!(csys.boundedness(), Boundedness::Bounded(1));
    let (pump, q0, q1) = producer();
    let psys = PetriNet::new(&pump, Marking::from_entries(vec![(q0, 1)]));
    assert!(!psys.is_bounded());
    assert_eq!(psys.boundedness(), Boundedness::Unbounded);
    assert!(psys.is_place_bounded(q0));
    assert!(!psys.is_place_bounded(q1));
    assert_eq!(psys.place_boundedness(q0), Boundedness::Bounded(1));
    assert_eq!(psys.place_boundedness(q1), Boundedness::Unbounded);
    let analysis = psys.boundedness_via_coverability_graph();
    assert_eq!(analysis.global_bound(), Boundedness::Unbounded);
    assert_eq!(analysis.place_bound(q0), Boundedness::Bounded(1));
}

#[test]
fn coverability_and_reachability() {
    let (pump, q0, q1) = producer();
    let psys = PetriNet::new(&pump, Marking::from_entries(vec![(q0, 1)]));
    assert!(psys.is_coverable(Marking::from_entries(vec![(q1, 1000)])));
    assert!(!psys.is_coverable(Marking::from_entries(vec![(q0, 2)])));
    assert!(psys.has_reachable_unsafe_marking());

    let (cycle, p0, _t0, p1, _t1) = two_place_cycle();
    let csys = PetriNet::new(&cycle, Marking::from_entries(vec![(p0, 1)]));
    assert_eq!(csys.is_efficiently_reachable(&Marking::from_entries(vec![(p1, 1)])), Some(true));
    assert_eq!(csys.is_efficiently_reachable(&Marking::from_entries(vec![(p1, 2)])), Some(false));
    assert!(!csys.has_reachable_unsafe_marking());
    assert_eq!(psys.is_efficiently_reachable(&Marking::empty()), None);
}

#[test]
fn wire_labels_and_envelopes() {
    assert_eq!(Polarity::ProveYes.wire_label(), "prove-yes");
    assert_eq!(Polarity::ProveNo.wire_label(), "prove-no");
    assert_eq!(Polarity::Exact.wire_label(), "exact");
    let cert = Cert {
        net_id: "philosophers-3".to_string(),
        query: NamedQuery::Reachable(vec![("eating_1".to_string(), 1)]),
        polarity: Polarity::ProveYes,
        witness: NamedFiringWord { transitions: vec!["pickup_left_1".to_string()] },
        theorem_id: "firing-word-replay".to_string(),
    };
    assert_eq!(cert.clone(), cert);
    assert_eq!(PInvariantKind::Subinvariant.relation(), "<=");
}
